use vstd::prelude::*;

verus! {

/// Whether `c` has the Unicode `White_Space` property, the set of characters
/// that `str::trim` removes.
pub open spec fn is_white_space(c: char) -> bool {
    ||| '\u{9}' <= c <= '\u{d}'
    ||| c == ' '
    ||| c == '\u{85}'
    ||| c == '\u{a0}'
    ||| c == '\u{1680}'
    ||| '\u{2000}' <= c <= '\u{200a}'
    ||| c == '\u{2028}'
    ||| c == '\u{2029}'
    ||| c == '\u{202f}'
    ||| c == '\u{205f}'
    ||| c == '\u{3000}'
}

/// A text is blank when nothing is left of it once surrounding white space
/// is trimmed, that is when every character of it is white space.
pub open spec fn is_blank_text(s: Seq<char>) -> bool {
    forall|i: int| 0 <= i < s.len() ==> is_white_space(#[trigger] s[i])
}

/// The line content `l` without the carriage return that precedes its
/// newline, if there is one.
pub open spec fn strip_cr(l: Seq<char>) -> Seq<char> {
    if l.len() > 0 && l.last() == '\r' {
        l.drop_last()
    } else {
        l
    }
}

/// The lines of `s` that begin at or after `start`, where the line that
/// begins at `start` has been scanned up to `i` without meeting a newline.
/// A line ends at `\n` or `\r\n`, which are not part of it; the end of the
/// text ends the last line, and a final newline opens no empty line.
pub open spec fn lines_from(s: Seq<char>, start: int, i: int) -> Seq<Seq<char>>
    decreases s.len() - i,
{
    if i >= s.len() {
        if start < s.len() {
            seq![s.subrange(start, s.len() as int)]
        } else {
            seq![]
        }
    } else if s[i] == '\n' {
        seq![strip_cr(s.subrange(start, i))] + lines_from(s, i + 1, i + 1)
    } else {
        lines_from(s, start, i + 1)
    }
}

/// The lines of the text `s`.
pub open spec fn lines_of(s: Seq<char>) -> Seq<Seq<char>> {
    lines_from(s, 0, 0)
}

/// Whether the bytes `a` come strictly before the bytes `b` in
/// lexicographic order.
pub open spec fn bytes_lt(a: Seq<u8>, b: Seq<u8>) -> bool
    decreases a.len(),
{
    if a.len() == 0 {
        b.len() > 0
    } else if b.len() == 0 {
        false
    } else if a[0] != b[0] {
        a[0] < b[0]
    } else {
        bytes_lt(a.drop_first(), b.drop_first())
    }
}

/// Whether `needle` stands in `hay` at byte position `p`.
pub open spec fn occurs_at(hay: Seq<u8>, needle: Seq<u8>, p: int) -> bool {
    0 <= p && p + needle.len() <= hay.len() && hay.subrange(p, p + needle.len()) == needle
}

/// The positions of the non-overlapping occurrences of `needle` in `hay` at
/// or after `from`, found left to right: after each occurrence the scan goes
/// on at its end. An empty needle occurs nowhere.
pub open spec fn occurrences(hay: Seq<u8>, needle: Seq<u8>, from: int) -> Seq<int>
    decreases hay.len() - from,
{
    if needle.len() == 0 || from < 0 || from + needle.len() > hay.len() {
        seq![]
    } else if occurs_at(hay, needle, from) {
        seq![from] + occurrences(hay, needle, from + needle.len())
    } else {
        occurrences(hay, needle, from + 1)
    }
}

/// The characters of `s`, in order.
pub fn chars_of(s: &str) -> (r: Vec<char>)
    ensures
        r@ == s@,
{
    let mut v: Vec<char> = Vec::new();
    for c in it: s.chars()
        invariant
            v@ == it.seq().take(it.index() as int),
    {
        v.push(c);
    }
    v
}

/// Whether `c` is white space in the sense of `is_white_space`.
pub fn is_white_space_char(c: char) -> (r: bool)
    ensures
        r == is_white_space(c),
{
    matches!(c, '\u{9}'..='\u{d}' | ' ' | '\u{85}' | '\u{a0}' | '\u{1680}' | '\u{2000}'..='\u{200a}'
        | '\u{2028}' | '\u{2029}' | '\u{202f}' | '\u{205f}' | '\u{3000}')
}

/// Whether `s` trimmed of surrounding white space is empty.
pub fn is_blank(s: &str) -> (r: bool)
    ensures
        r == is_blank_text(s@),
{
    let chars = chars_of(s);
    let mut i: usize = 0;
    while i < chars.len()
        invariant
            chars@ == s@,
            i <= chars.len(),
            forall|j: int| 0 <= j < i ==> is_white_space(#[trigger] s@[j]),
        decreases chars.len() - i,
    {
        if !is_white_space_char(chars[i]) {
            return false;
        }
        i = i + 1;
    }
    true
}

/// Relies on `String::push`: the character is appended.
#[verifier::external_body]
fn push_char(s: &mut String, c: char)
    ensures
        final(s)@ == old(s)@.push(c),
{
    s.push(c);
}

proof fn lemma_lines_skip(s: Seq<char>, start: int, i: int, e: int)
    requires
        0 <= start <= i <= e <= s.len(),
        forall|k: int| i <= k < e ==> s[k] != '\n',
    ensures
        lines_from(s, start, i) == lines_from(s, start, e),
    decreases e - i,
{
    if i < e {
        lemma_lines_skip(s, start, i + 1, e);
    }
}

/// The line of `chars` that begins at `start`, and where the next one begins.
pub fn next_line(chars: &Vec<char>, start: usize) -> (r: (String, usize))
    requires
        start < chars.len(),
    ensures
        start < r.1 <= chars.len(),
        lines_from(chars@, start as int, start as int) == seq![r.0@] + lines_from(
            chars@,
            r.1 as int,
            r.1 as int,
        ),
{
    let n = chars.len();
    let mut e: usize = start;
    while e < n && chars[e] != '\n'
        invariant
            start <= e <= n,
            n == chars.len(),
            forall|k: int| start <= k < e ==> chars@[k] != '\n',
        decreases n - e,
    {
        e = e + 1;
    }
    proof {
        lemma_lines_skip(chars@, start as int, start as int, e as int);
    }
    let end: usize = if e < n && e > start && chars[e - 1] == '\r' {
        e - 1
    } else {
        e
    };
    let mut line = String::new();
    let mut k: usize = start;
    while k < end
        invariant
            start <= k <= end <= e <= n,
            n == chars.len(),
            line@ == chars@.subrange(start as int, k as int),
        decreases end - k,
    {
        push_char(&mut line, chars[k]);
        proof {
            assert(chars@.subrange(start as int, k + 1) == chars@.subrange(start as int, k as int).push(
                chars@[k as int],
            ));
        }
        k = k + 1;
    }
    if e < n {
        proof {
            let l = chars@.subrange(start as int, e as int);
            if end < e {
                assert(l.drop_last() =~= chars@.subrange(start as int, end as int));
            }
            assert(strip_cr(l) == line@);
            assert(lines_from(chars@, start as int, e as int) == seq![strip_cr(l)] + lines_from(
                chars@,
                (e + 1) as int,
                (e + 1) as int,
            ));
        }
        (line, e + 1)
    } else {
        proof {
            assert(lines_from(chars@, start as int, n as int) == seq![line@]);
            assert(lines_from(chars@, n as int, n as int) =~= seq![]);
            assert(seq![line@] + seq![] =~= seq![line@]);
        }
        (line, n)
    }
}

/// Whether `a` comes strictly before `b` in lexicographic byte order.
pub fn bytes_less(a: &[u8], b: &[u8]) -> (r: bool)
    ensures
        r == bytes_lt(a@, b@),
{
    let mut i: usize = 0;
    proof {
        assert(a@.skip(0) =~= a@);
        assert(b@.skip(0) =~= b@);
    }
    while i < a.len() && i < b.len() && a[i] == b[i]
        invariant
            i <= a.len(),
            i <= b.len(),
            bytes_lt(a@, b@) == bytes_lt(a@.skip(i as int), b@.skip(i as int)),
        decreases a.len() - i,
    {
        proof {
            assert(a@.skip(i as int).drop_first() =~= a@.skip(i + 1));
            assert(b@.skip(i as int).drop_first() =~= b@.skip(i + 1));
        }
        i = i + 1;
    }
    if i == a.len() {
        i < b.len()
    } else if i == b.len() {
        false
    } else {
        a[i] < b[i]
    }
}

/// Whether `needle` stands in `hay` at byte position `p`.
pub fn bytes_occur_at(hay: &[u8], needle: &[u8], p: usize) -> (r: bool)
    requires
        p + needle.len() <= hay.len(),
    ensures
        r == occurs_at(hay@, needle@, p as int),
{
    let mut j: usize = 0;
    while j < needle.len()
        invariant
            j <= needle.len(),
            p + needle.len() <= hay.len(),
            forall|k: int| 0 <= k < j ==> hay@[p + k] == needle@[k],
        decreases needle.len() - j,
    {
        if hay[p + j] != needle[j] {
            proof {
                assert(hay@.subrange(p as int, p + needle.len())[j as int] != needle@[j as int]);
            }
            return false;
        }
        j = j + 1;
    }
    proof {
        assert(hay@.subrange(p as int, p + needle.len()) =~= needle@);
    }
    true
}

/// The positions as integers.
pub open spec fn positions(v: Seq<usize>) -> Seq<int> {
    v.map_values(|p: usize| p as int)
}

/// The first `limit` of the non-overlapping occurrences of `needle` in
/// `hay`, left to right (all of them if there are fewer).
pub fn find_occurrences(hay: &[u8], needle: &[u8], limit: usize) -> (r: Vec<usize>)
    ensures
        positions(r@) == occurrences(hay@, needle@, 0).take(
            if occurrences(hay@, needle@, 0).len() < limit {
                occurrences(hay@, needle@, 0).len() as int
            } else {
                limit as int
            },
        ),
{
    let ghost all = occurrences(hay@, needle@, 0);
    let mut found: Vec<usize> = Vec::new();
    let h = hay.len();
    let m = needle.len();
    if m == 0 || m > h {
        proof {
            assert(all =~= seq![]);
        }
        return found;
    }
    let mut pos: usize = 0;
    proof {
        assert(positions(found@) + all =~= all);
    }
    while pos <= h - m && found.len() < limit
        invariant
            0 < m <= h,
            m == needle@.len(),
            h == hay@.len(),
            all == occurrences(hay@, needle@, 0),
            all == positions(found@) + occurrences(hay@, needle@, pos as int),
            found.len() <= limit,
        decreases h - pos,
    {
        let ghost before = found@;
        if bytes_occur_at(hay, needle, pos) {
            found.push(pos);
            proof {
                assert(positions(found@) =~= positions(before).push(pos as int));
                assert(positions(found@) + occurrences(hay@, needle@, pos + m) =~= positions(before)
                    + (seq![pos as int] + occurrences(hay@, needle@, pos + m)));
            }
            pos = pos + m;
        } else {
            pos = pos + 1;
        }
    }
    proof {
        if found.len() < limit {
            assert(occurrences(hay@, needle@, pos as int) =~= seq![]);
            assert(all =~= positions(found@));
        }
        assert(all.take(found.len() as int) =~= positions(found@));
    }
    found
}

} // verus!
