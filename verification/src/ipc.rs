//! The computing side of the inter-process communication exercises: one
//! process sends a text to another, which keeps the lines that contain a given
//! word and sends them back. Here: the word test, the line filters, the split
//! of a text into the parts that worker threads filter, and the length prefix
//! that frames a message. Pipes, sockets, shared memory, processes and threads
//! belong to the program around the library.
use vstd::prelude::*;
use crate::text::{
    chars_of, is_white_space, lemma_split_on_len, occurs_at, push_char, split_chars, split_on,
    string_of, white_space,
};

verus! {

broadcast use vstd::string::group_string_axioms;

/// Whether the word `w` occurs in `s` at position `i`: `w` is a maximal run of
/// non-white-space characters of `s` (one of the pieces `split_whitespace` yields).
pub open spec fn word_at(s: Seq<char>, i: int, w: Seq<char>) -> bool {
    &&& w.len() > 0
    &&& 0 <= i
    &&& i + w.len() <= s.len()
    &&& s.subrange(i, i + w.len()) == w
    &&& forall|k: int| 0 <= k < w.len() ==> !is_white_space(#[trigger] w[k])
    &&& (i == 0 || is_white_space(s[i - 1]))
    &&& (i + w.len() == s.len() || is_white_space(s[i + w.len()]))
}

/// Whether `w` is one of the white-space separated words of `s`.
pub open spec fn has_word(s: Seq<char>, w: Seq<char>) -> bool {
    exists|i: int| word_at(s, i, w)
}

/// Whether `target` is one of the white-space separated words of `s`.
pub fn contains_word_chars(s: &Vec<char>, target: &Vec<char>) -> (r: bool)
    ensures
        r == has_word(s@, target@),
{
    let ghost w = target@;
    let mut i: usize = 0;
    while i < s.len()
        invariant
            i <= s.len(),
            w == target@,
            forall|j: int| 0 <= j < i ==> !word_at(s@, j, w),
            i == 0 || i == s.len() || is_white_space(s@[i - 1]) || is_white_space(s@[i as int]),
        decreases s.len() - i,
    {
        if white_space(s[i]) {
            proof {
                if word_at(s@, i as int, w) {
                    assert(s@.subrange(i as int, i + w.len())[0] == w[0]);
                }
            }
            i += 1;
        } else {
            let start = i;
            while i < s.len() && !white_space(s[i])
                invariant
                    start <= i <= s.len(),
                    forall|k: int| start <= k < i ==> !is_white_space(#[trigger] s@[k]),
                decreases s.len() - i,
            {
                i += 1;
            }
            let same = i - start == target.len() && occurs_at(s, start, target);
            proof {
                assert forall|j: int| start <= j < i && word_at(s@, j, w) implies same by {
                    if j > start {
                        assert(!is_white_space(s@[j - 1]));
                    } else {
                        if j + w.len() < i {
                            assert(!is_white_space(s@[j + w.len()]));
                        } else if j + w.len() > i {
                            assert(s@.subrange(j, j + w.len())[i - j] == s@[i as int]);
                        }
                    }
                }
            }
            if same {
                assert forall|k: int| 0 <= k < w.len() implies !is_white_space(#[trigger] w[k]) by {
                    assert(s@.subrange(start as int, i as int)[k] == s@[start + k]);
                }
                assert(word_at(s@, start as int, w));
                return true;
            }
        }
    }
    false
}

/// Whether `target` is one of the white-space separated words of `line`
/// (how every exercise decides that a line is kept).
pub fn contains_word(line: &str, target: &str) -> (r: bool)
    ensures
        r == has_word(line@, target@),
{
    contains_word_chars(&chars_of(line), &chars_of(target))
}

/// The lines among `ps` that contain `w`, each followed by a newline.
pub open spec fn kept_lines(ps: Seq<Seq<char>>, w: Seq<char>) -> Seq<char>
    decreases ps.len(),
{
    if ps.len() == 0 {
        Seq::empty()
    } else {
        kept_lines(ps.drop_last(), w) + if has_word(ps.last(), w) {
            ps.last().push('\n')
        } else {
            Seq::empty()
        }
    }
}

/// The pieces of `text` between newlines that contain `w`, each followed by a newline.
pub open spec fn filtered_text(text: Seq<char>, w: Seq<char>) -> Seq<char> {
    kept_lines(split_on(text, seq!['\n']), w)
}

/// Splits `text` at each newline and keeps, each followed by a newline, the
/// pieces that contain the word `target`.
pub fn filter_lines_chars(text: &Vec<char>, target: &Vec<char>) -> (r: String)
    ensures
        r@ == filtered_text(text@, target@),
{
    let seps: [char; 1] = ['\n'];
    let pieces = split_chars(text, &seps);
    assert(seps@ =~= seq!['\n']);
    let ghost ps = split_on(text@, seq!['\n']);
    let mut res = String::new();
    let mut k: usize = 0;
    while k < pieces.len()
        invariant
            k <= pieces@.len(),
            pieces@.len() == ps.len(),
            forall|j: int| 0 <= j < pieces@.len() ==> #[trigger] pieces@[j]@ == ps[j],
            res@ == kept_lines(ps.take(k as int), target@),
        decreases pieces.len() - k,
    {
        let ghost t = ps.take(k + 1 as int);
        assert(t.drop_last() == ps.take(k as int));
        assert(t.last() == pieces@[k as int]@);
        if contains_word_chars(&pieces[k], target) {
            let line = &pieces[k];
            let mut m: usize = 0;
            let ghost before = res@;
            while m < line.len()
                invariant
                    m <= line.len(),
                    res@ == before + line@.take(m as int),
                decreases line.len() - m,
            {
                push_char(&mut res, line[m]);
                m += 1;
            }
            push_char(&mut res, '\n');
            assert(line@.take(line.len() as int) == line@);
            assert(res@ == before + line@.push('\n'));
        } else {
            assert(res@ == res@ + Seq::<char>::empty());
        }
        k += 1;
    }
    assert(ps.take(pieces.len() as int) == ps);
    res
}

/// The lines of `text` that contain the word `target`, each followed by a newline.
pub fn filter_lines(text: &str, target: &str) -> (r: String)
    ensures
        r@ == filtered_text(text@, target@),
{
    filter_lines_chars(&chars_of(text), &chars_of(target))
}

/// Each byte as the character with the same code.
pub open spec fn latin1(bytes: Seq<u8>) -> Seq<char> {
    bytes.map_values(|b: u8| b as char)
}

/// What the socket client sends back: the received bytes read one character
/// per byte, then the lines that contain `target`, each followed by a newline.
pub fn client_filter(bytes: &Vec<u8>, target: &str) -> (r: String)
    ensures
        r@ == filtered_text(latin1(bytes@), target@),
{
    let mut text: Vec<char> = Vec::new();
    let mut k: usize = 0;
    while k < bytes.len()
        invariant
            k <= bytes.len(),
            text@ == latin1(bytes@.take(k as int)),
        decreases bytes.len() - k,
    {
        text.push(bytes[k] as char);
        assert(latin1(bytes@.take(k + 1 as int)) =~= latin1(bytes@.take(k as int)).push(
            bytes@[k as int] as char,
        ));
        k += 1;
    }
    assert(bytes@.take(bytes.len() as int) == bytes@);
    filter_lines_chars(&text, &chars_of(target))
}

/// Whether the socket client reads on: fewer than the announced `len` bytes
/// have been received so far.
pub fn needs_more(received: usize, len: u64) -> (r: bool)
    ensures
        r == (received < len),
{
    (received as u64) < len
}

/// A line as the half-duplex parent sends it: with a final newline added when
/// it has none.
pub fn terminated_line(line: &str) -> (r: String)
    ensures
        r@ == if line@.len() > 0 && line@.last() == '\n' {
            line@
        } else {
            line@.push('\n')
        },
{
    let mut c = chars_of(line);
    if !(c.len() > 0 && c[c.len() - 1] == '\n') {
        c.push('\n');
    }
    string_of(&c)
}

/// Whether a string's UTF-8 bytes `b` may be cut at `i` (what
/// `str::is_char_boundary` tests): at either end, or before a byte that does
/// not continue a character.
pub open spec fn char_boundary(b: Seq<u8>, i: int) -> bool {
    i == 0 || i == b.len() || (0 <= i < b.len() && !(0x80 <= b[i] && b[i] < 0xc0))
}

/// The position of the first newline in `b[lo..hi]`.
pub open spec fn first_newline(b: Seq<u8>, lo: int, hi: int) -> Option<int>
    decreases hi - lo,
{
    if lo >= hi {
        None
    } else if b[lo] == 10 {
        Some(lo)
    } else {
        first_newline(b, lo + 1, hi)
    }
}

proof fn lemma_first_newline(b: Seq<u8>, lo: int, hi: int)
    requires
        lo <= hi,
    ensures
        match first_newline(b, lo, hi) {
            Some(p) => lo <= p < hi && b[p] == 10 && forall|k: int| lo <= k < p ==> b[k] != 10,
            None => forall|k: int| lo <= k < hi ==> b[k] != 10,
        },
    decreases hi - lo,
{
    if lo < hi && b[lo] != 10 {
        lemma_first_newline(b, lo + 1, hi);
    }
}

/// Where a worker's part of the text starts when its bound is `i`: at the
/// start of the text for `i == 0`, else just after the first newline at or
/// after `i` (at `end` when there is none). So a part always starts at the
/// start of a line.
pub open spec fn part_start(b: Seq<u8>, i: int, end: int) -> int {
    if i == 0 {
        0
    } else {
        match first_newline(b, i, end) {
            None => end,
            Some(p) => p + 1,
        }
    }
}

/// The part `[il, ir)` of the text that a worker with bounds `begin <= br <= end`
/// filters: from the line start for `begin` to the line start for `br`.
pub open spec fn worker_range(b: Seq<u8>, begin: int, br: int, end: int) -> (int, int) {
    (part_start(b, begin, end), part_start(b, br, end))
}

fn first_newline_exec(b: &Vec<u8>, lo: usize, hi: usize) -> (r: Option<usize>)
    requires
        lo <= hi <= b.len(),
    ensures
        match first_newline(b@, lo as int, hi as int) {
            None => r is None,
            Some(p) => r == Some(p as usize),
        },
{
    let mut k = lo;
    while k < hi
        invariant
            lo <= k <= hi <= b.len(),
            first_newline(b@, lo as int, hi as int) == first_newline(b@, k as int, hi as int),
        decreases hi - k,
    {
        if b[k] == 10 {
            return Some(k);
        }
        k += 1;
    }
    None
}

proof fn lemma_part_start(b: Seq<u8>, i: int, j: int, end: int)
    requires
        0 <= i <= j <= end <= b.len(),
    ensures
        i <= part_start(b, i, end) <= part_start(b, j, end) <= end,
        part_start(b, i, end) == 0 || part_start(b, i, end) == end || b[part_start(b, i, end)
            - 1] == 10,
{
    lemma_first_newline(b, i, end);
    lemma_first_newline(b, j, end);
    if i > 0 {
        if let Some(q) = first_newline(b, j, end) {
            let p = first_newline(b, i, end)->0;
            assert(p <= q);
        }
    }
}

fn part_start_exec(b: &Vec<u8>, i: usize, end: usize) -> (r: usize)
    requires
        i <= end <= b.len(),
    ensures
        r == part_start(b@, i as int, end as int),
{
    if i == 0 {
        return 0;
    }
    proof {
        lemma_first_newline(b@, i as int, end as int);
    }
    match first_newline_exec(b, i, end) {
        None => end,
        Some(p) => p + 1,
    }
}

/// The byte range `[il, ir)` of the text bytes `content` that a worker filters,
/// for the bounds `begin <= br <= end`, which must not cut a character.
pub fn worker_bounds(content: &Vec<u8>, begin: usize, br: usize, end: usize) -> (r: (
    usize,
    usize,
))
    requires
        begin <= br <= end <= content.len(),
        char_boundary(content@, begin as int),
        char_boundary(content@, br as int),
        char_boundary(content@, end as int),
    ensures
        (r.0 as int, r.1 as int) == worker_range(content@, begin as int, br as int, end as int),
        begin <= r.0 <= r.1 <= end,
{
    proof {
        lemma_part_start(content@, begin as int, br as int, end as int);
    }
    (part_start_exec(content, begin, end), part_start_exec(content, br, end))
}

/// The bounds `(begin, br, end)` of the four workers for a text of `len` bytes:
/// quarter `k` starts at `k * (len / 4)`; the last quarter runs to `len`.
pub open spec fn worker_quarters(len: int) -> Seq<(int, int, int)> {
    let q = len / 4;
    seq![(0, q, len), (q, 2 * q, len), (2 * q, 3 * q, len), (3 * q, len, len)]
}

/// The bounds of the four workers for a text of `len` bytes.
pub fn mapper_quarters(len: usize) -> (r: Vec<(usize, usize, usize)>)
    ensures
        r@.len() == 4,
        forall|k: int|
            0 <= k < 4 ==> ((#[trigger] r@[k]).0 as int, r@[k].1 as int, r@[k].2 as int)
                == worker_quarters(len as int)[k],
{
    let q = len / 4;
    let mut r: Vec<(usize, usize, usize)> = Vec::new();
    r.push((0, q, len));
    r.push((q, 2 * q, len));
    r.push((2 * q, 3 * q, len));
    r.push((3 * q, len, len));
    r
}

/// The four parts `[il, ir)` of the text bytes `b` that the workers filter,
/// for the bounds of `worker_quarters`.
pub open spec fn worker_ranges(b: Seq<u8>) -> Seq<(int, int)> {
    Seq::new(
        4,
        |k: int|
            worker_range(
                b,
                worker_quarters(b.len() as int)[k].0,
                worker_quarters(b.len() as int)[k].1,
                worker_quarters(b.len() as int)[k].2,
            ),
    )
}

/// The text of the part `r` of the bytes `b`, one character per byte.
pub open spec fn part_text(b: Seq<u8>, r: (int, int)) -> Seq<char> {
    latin1(b.subrange(r.0, r.1))
}

proof fn lemma_split_concat(a: Seq<char>, c: Seq<char>, seps: Seq<char>)
    ensures
        split_on(a + c, seps) == split_on(a, seps).drop_last() + seq![
            split_on(a, seps).last() + split_on(c, seps)[0],
        ] + split_on(c, seps).drop_first(),
    decreases c.len(),
{
    lemma_split_on_len(a, seps);
    lemma_split_on_len(c, seps);
    let pa = split_on(a, seps);
    if c.len() == 0 {
        assert(a + c =~= a);
        assert(pa.last() + split_on(c, seps)[0] =~= pa.last());
        assert(split_on(c, seps).drop_first() =~= Seq::<Seq<char>>::empty());
        assert(pa.drop_last() + seq![pa.last()] + Seq::<Seq<char>>::empty() =~= pa);
    } else {
        let c2 = c.drop_last();
        let x = c.last();
        lemma_split_concat(a, c2, seps);
        lemma_split_on_len(c2, seps);
        assert((a + c).drop_last() =~= a + c2);
        assert((a + c).last() == x);
        let pc2 = split_on(c2, seps);
        let pc = split_on(c, seps);
        let p2 = split_on(a + c2, seps);
        let p = split_on(a + c, seps);
        let rhs = pa.drop_last() + seq![pa.last() + pc[0]] + pc.drop_first();
        if seps.contains(x) {
            assert(pc == pc2.push(Seq::<char>::empty()));
            assert(p == p2.push(Seq::<char>::empty()));
            assert(pc[0] == pc2[0]);
            assert(pc.drop_first() =~= pc2.drop_first().push(Seq::<char>::empty()));
            assert(p =~= rhs);
        } else {
            assert(pc == pc2.update(pc2.len() - 1, pc2.last().push(x)));
            assert(p == p2.update(p2.len() - 1, p2.last().push(x)));
            if pc2.len() == 1 {
                assert(pc[0] == pc2[0].push(x));
                assert(pa.last() + pc[0] =~= (pa.last() + pc2[0]).push(x));
                assert(pc.drop_first() =~= Seq::<Seq<char>>::empty());
                assert(pc2.drop_first() =~= Seq::<Seq<char>>::empty());
                assert(p =~= rhs);
            } else {
                assert(pc[0] == pc2[0]);
                assert(pc.drop_first() =~= pc2.drop_first().update(
                    pc2.len() - 2,
                    pc2.last().push(x),
                ));
                assert(p =~= rhs);
            }
        }
    }
}

proof fn lemma_kept_concat(ps1: Seq<Seq<char>>, ps2: Seq<Seq<char>>, w: Seq<char>)
    ensures
        kept_lines(ps1 + ps2, w) == kept_lines(ps1, w) + kept_lines(ps2, w),
    decreases ps2.len(),
{
    if ps2.len() == 0 {
        assert(ps1 + ps2 =~= ps1);
        assert(kept_lines(ps1, w) + Seq::<char>::empty() =~= kept_lines(ps1, w));
    } else {
        lemma_kept_concat(ps1, ps2.drop_last(), w);
        assert((ps1 + ps2).drop_last() =~= ps1 + ps2.drop_last());
        assert((ps1 + ps2).last() == ps2.last());
        let e = if has_word(ps2.last(), w) {
            ps2.last().push('\n')
        } else {
            Seq::empty()
        };
        assert(kept_lines(ps1, w) + kept_lines(ps2.drop_last(), w) + e =~= kept_lines(ps1, w) + (
        kept_lines(ps2.drop_last(), w) + e));
    }
}

proof fn lemma_no_word_in_empty(w: Seq<char>)
    ensures
        !has_word(Seq::<char>::empty(), w),
{
    assert forall|i: int| !word_at(Seq::<char>::empty(), i, w) by {}
}

proof fn lemma_filtered_empty(w: Seq<char>)
    ensures
        filtered_text(Seq::<char>::empty(), w) == Seq::<char>::empty(),
{
    lemma_no_word_in_empty(w);
    let ps = split_on(Seq::<char>::empty(), seq!['\n']);
    assert(ps == seq![Seq::<char>::empty()]);
    assert(ps.len() == 1);
    assert(ps.drop_last() =~= Seq::<Seq<char>>::empty());
    assert(ps.last() == Seq::<char>::empty());
    assert(kept_lines(Seq::<Seq<char>>::empty(), w) == Seq::<char>::empty());
    assert(kept_lines(ps, w) == kept_lines(ps.drop_last(), w) + Seq::<char>::empty());
    assert(kept_lines(ps, w) =~= Seq::<char>::empty());
}

proof fn lemma_filtered_at(t: Seq<char>, lo: int, mid: int, hi: int, w: Seq<char>)
    requires
        0 <= lo <= mid <= hi <= t.len(),
        mid == lo || mid == hi || t[mid - 1] == '\n',
    ensures
        filtered_text(t.subrange(lo, mid), w) + filtered_text(t.subrange(mid, hi), w)
            == filtered_text(t.subrange(lo, hi), w),
{
    let a = t.subrange(lo, mid);
    let c = t.subrange(mid, hi);
    assert(a + c =~= t.subrange(lo, hi));
    lemma_filtered_empty(w);
    if mid == lo {
        assert(a =~= Seq::<char>::empty());
        assert(Seq::<char>::empty() + filtered_text(c, w) =~= filtered_text(c, w));
    } else if mid == hi {
        assert(c =~= Seq::<char>::empty());
        assert(filtered_text(a, w) + Seq::<char>::empty() =~= filtered_text(a, w));
    } else {
        let seps = seq!['\n'];
        assert(seps[0] == '\n');
        assert(a.last() == '\n');
        assert(seps.contains(a.last()));
        let pa = split_on(a, seps);
        let pc = split_on(c, seps);
        lemma_split_on_len(a.drop_last(), seps);
        lemma_split_on_len(c, seps);
        assert(pa == split_on(a.drop_last(), seps).push(Seq::<char>::empty()));
        assert(pa.last() == Seq::<char>::empty());
        lemma_split_concat(a, c, seps);
        assert(pa.last() + pc[0] =~= pc[0]);
        assert(seq![pc[0]] + pc.drop_first() =~= pc);
        assert(pa.drop_last() + seq![pc[0]] + pc.drop_first() =~= pa.drop_last() + pc);
        lemma_kept_concat(pa.drop_last(), pc, w);
        lemma_no_word_in_empty(w);
        assert(kept_lines(pa, w) =~= kept_lines(pa.drop_last(), w) + Seq::<char>::empty());
    }
}

/// The four workers' parts cover the text once, in order, each starting at
/// the start of a line: the first starts at 0, each ends where the next
/// starts, and the last ends at the end of the text. So the lines that the
/// workers keep, put together in the workers' order, are exactly the lines of
/// the whole text that contain the word `w`.
pub proof fn law_workers_tile_text(b: Seq<u8>, w: Seq<char>)
    ensures
        worker_ranges(b)[0].0 == 0,
        worker_ranges(b)[0].1 == worker_ranges(b)[1].0,
        worker_ranges(b)[1].1 == worker_ranges(b)[2].0,
        worker_ranges(b)[2].1 == worker_ranges(b)[3].0,
        worker_ranges(b)[3].1 == b.len(),
        forall|k: int| 0 <= k < 4 ==> (#[trigger] worker_ranges(b)[k]).0 <= worker_ranges(b)[k].1,
        filtered_text(part_text(b, worker_ranges(b)[0]), w) + filtered_text(
            part_text(b, worker_ranges(b)[1]),
            w,
        ) + filtered_text(part_text(b, worker_ranges(b)[2]), w) + filtered_text(
            part_text(b, worker_ranges(b)[3]),
            w,
        ) == filtered_text(latin1(b), w),
{
    let n = b.len() as int;
    let q = n / 4;
    assert(0 <= q && 3 * q <= n);
    let qs = worker_quarters(n);
    let rs = worker_ranges(b);
    assert(rs[0] == worker_range(b, 0, q, n));
    assert(rs[1] == worker_range(b, q, 2 * q, n));
    assert(rs[2] == worker_range(b, 2 * q, 3 * q, n));
    assert(rs[3] == worker_range(b, 3 * q, n, n));
    lemma_part_start(b, 0, q, n);
    lemma_part_start(b, q, 2 * q, n);
    lemma_part_start(b, 2 * q, 3 * q, n);
    lemma_part_start(b, 3 * q, n, n);
    let x1 = part_start(b, q, n);
    let x2 = part_start(b, 2 * q, n);
    let x3 = part_start(b, 3 * q, n);
    assert(part_start(b, n, n) == n);
    let t = latin1(b);
    assert((10u8 as char) == '\n');
    assert forall|lo: int, hi: int| 0 <= lo <= hi <= n implies #[trigger] latin1(b.subrange(lo, hi))
        == t.subrange(lo, hi) by {
        assert(latin1(b.subrange(lo, hi)) =~= t.subrange(lo, hi));
    }
    assert(x1 == 0 || x1 == n || t[x1 - 1] == '\n');
    assert(x2 == x1 || x2 == n || t[x2 - 1] == '\n');
    assert(x3 == x2 || x3 == n || t[x3 - 1] == '\n');
    lemma_filtered_at(t, 0, x1, n, w);
    lemma_filtered_at(t, x1, x2, n, w);
    lemma_filtered_at(t, x2, x3, n, w);
    assert(t.subrange(0, n) =~= t);
    assert(latin1(b.subrange(0, x1)) == t.subrange(0, x1));
    assert(latin1(b.subrange(x1, x2)) == t.subrange(x1, x2));
    assert(latin1(b.subrange(x2, x3)) == t.subrange(x2, x3));
    assert(latin1(b.subrange(x3, n)) == t.subrange(x3, n));
    let f0 = filtered_text(t.subrange(0, x1), w);
    let f1 = filtered_text(t.subrange(x1, x2), w);
    let f2 = filtered_text(t.subrange(x2, x3), w);
    let f3 = filtered_text(t.subrange(x3, n), w);
    assert(f0 + f1 + f2 + f3 =~= f0 + (f1 + (f2 + f3)));
}

/// `n` as 8 bytes, the most significant first (what `u64::to_be_bytes` gives).
pub open spec fn be_bytes(n: u64) -> Seq<u8> {
    seq![
        ((n >> 56u64) & 0xff) as u8,
        ((n >> 48u64) & 0xff) as u8,
        ((n >> 40u64) & 0xff) as u8,
        ((n >> 32u64) & 0xff) as u8,
        ((n >> 24u64) & 0xff) as u8,
        ((n >> 16u64) & 0xff) as u8,
        ((n >> 8u64) & 0xff) as u8,
        (n & 0xff) as u8,
    ]
}

/// The number that the bytes `b` write in base 256, the most significant first.
pub open spec fn be_value(b: Seq<u8>) -> nat
    decreases b.len(),
{
    if b.len() == 0 {
        0
    } else {
        be_value(b.drop_last()) * 256 + (b.last() as nat)
    }
}

/// The length prefix of a message of `len` bytes.
pub fn encode_len(len: u64) -> (r: Vec<u8>)
    ensures
        r@ == be_bytes(len),
{
    let mut r: Vec<u8> = Vec::new();
    r.push(((len >> 56u64) & 0xff) as u8);
    r.push(((len >> 48u64) & 0xff) as u8);
    r.push(((len >> 40u64) & 0xff) as u8);
    r.push(((len >> 32u64) & 0xff) as u8);
    r.push(((len >> 24u64) & 0xff) as u8);
    r.push(((len >> 16u64) & 0xff) as u8);
    r.push(((len >> 8u64) & 0xff) as u8);
    r.push((len & 0xff) as u8);
    assert(r@ =~= be_bytes(len));
    r
}

/// A message as it is sent: its length as 8 bytes, then its bytes.
pub fn frame(content: &Vec<u8>) -> (r: Vec<u8>)
    ensures
        r@ == be_bytes(content.len() as u64) + content@,
{
    let mut r = encode_len(content.len() as u64);
    let ghost head = r@;
    let mut k: usize = 0;
    while k < content.len()
        invariant
            k <= content.len(),
            r@ == head + content@.take(k as int),
        decreases content.len() - k,
    {
        r.push(content[k]);
        k += 1;
    }
    assert(content@.take(content.len() as int) == content@);
    r
}

/// The length that the 8-byte prefix `header` announces.
pub fn decode_len(header: &Vec<u8>) -> (r: u64)
    requires
        header@.len() == 8,
    ensures
        r == be_value(header@),
{
    let b0 = header[0];
    let b1 = header[1];
    let b2 = header[2];
    let b3 = header[3];
    let b4 = header[4];
    let b5 = header[5];
    let b6 = header[6];
    let b7 = header[7];
    let v: u64 = ((b0 as u64) << 56u64) | ((b1 as u64) << 48u64) | ((b2 as u64) << 40u64) | ((
    b3 as u64) << 32u64) | ((b4 as u64) << 24u64) | ((b5 as u64) << 16u64) | ((b6 as u64)
        << 8u64) | (b7 as u64);
    proof {
        let h = header@;
        assert(h =~= seq![b0, b1, b2, b3, b4, b5, b6, b7]);
        lemma_be_value_8(b0, b1, b2, b3, b4, b5, b6, b7);
        assert(v == ((((((((b0 as u64) * 256 + (b1 as u64)) * 256 + (b2 as u64)) * 256 + (
        b3 as u64)) * 256 + (b4 as u64)) * 256 + (b5 as u64)) * 256 + (b6 as u64)) * 256 + (
        b7 as u64))) by (bit_vector)
            requires
                v == ((b0 as u64) << 56u64) | ((b1 as u64) << 48u64) | ((b2 as u64) << 40u64) | ((
                b3 as u64) << 32u64) | ((b4 as u64) << 24u64) | ((b5 as u64) << 16u64) | ((
                b6 as u64) << 8u64) | (b7 as u64),
        ;
    }
    v
}

proof fn lemma_be_value_8(b0: u8, b1: u8, b2: u8, b3: u8, b4: u8, b5: u8, b6: u8, b7: u8)
    ensures
        be_value(seq![b0, b1, b2, b3, b4, b5, b6, b7]) == (((((((b0 as nat) * 256 + b1) * 256
            + b2) * 256 + b3) * 256 + b4) * 256 + b5) * 256 + b6) * 256 + (b7 as nat),
{
    let s = seq![b0, b1, b2, b3, b4, b5, b6, b7];
    reveal_with_fuel(be_value, 9);
    assert(s.drop_last() =~= seq![b0, b1, b2, b3, b4, b5, b6]);
    assert(s.drop_last().drop_last() =~= seq![b0, b1, b2, b3, b4, b5]);
    assert(s.drop_last().drop_last().drop_last() =~= seq![b0, b1, b2, b3, b4]);
    assert(s.drop_last().drop_last().drop_last().drop_last() =~= seq![b0, b1, b2, b3]);
    assert(s.drop_last().drop_last().drop_last().drop_last().drop_last() =~= seq![b0, b1, b2]);
    assert(s.drop_last().drop_last().drop_last().drop_last().drop_last().drop_last() =~= seq![
        b0,
        b1,
    ]);
    assert(s.drop_last().drop_last().drop_last().drop_last().drop_last().drop_last().drop_last()
        =~= seq![b0]);
    assert(seq![b0].drop_last() =~= Seq::<u8>::empty());
}

/// The length prefix that `encode_len` writes reads back, by `decode_len`, as
/// the same length.
pub proof fn law_length_prefix_roundtrip(n: u64)
    ensures
        be_value(be_bytes(n)) == n,
{
    let b0 = ((n >> 56u64) & 0xff) as u8;
    let b1 = ((n >> 48u64) & 0xff) as u8;
    let b2 = ((n >> 40u64) & 0xff) as u8;
    let b3 = ((n >> 32u64) & 0xff) as u8;
    let b4 = ((n >> 24u64) & 0xff) as u8;
    let b5 = ((n >> 16u64) & 0xff) as u8;
    let b6 = ((n >> 8u64) & 0xff) as u8;
    let b7 = (n & 0xff) as u8;
    assert(be_bytes(n) =~= seq![b0, b1, b2, b3, b4, b5, b6, b7]);
    lemma_be_value_8(b0, b1, b2, b3, b4, b5, b6, b7);
    assert((((((((((n >> 56u64) & 0xff) * 256 + ((n >> 48u64) & 0xff)) * 256 + ((n >> 40u64)
        & 0xff)) * 256 + ((n >> 32u64) & 0xff)) * 256 + ((n >> 24u64) & 0xff)) * 256 + ((n
        >> 16u64) & 0xff)) * 256 + ((n >> 8u64) & 0xff)) * 256 + (n & 0xff)) == n)
        by (bit_vector);
    assert(b0 as u64 == (n >> 56u64) & 0xff) by (bit_vector)
        requires
            b0 == ((n >> 56u64) & 0xff) as u8,
    ;
    assert(b1 as u64 == (n >> 48u64) & 0xff) by (bit_vector)
        requires
            b1 == ((n >> 48u64) & 0xff) as u8,
    ;
    assert(b2 as u64 == (n >> 40u64) & 0xff) by (bit_vector)
        requires
            b2 == ((n >> 40u64) & 0xff) as u8,
    ;
    assert(b3 as u64 == (n >> 32u64) & 0xff) by (bit_vector)
        requires
            b3 == ((n >> 32u64) & 0xff) as u8,
    ;
    assert(b4 as u64 == (n >> 24u64) & 0xff) by (bit_vector)
        requires
            b4 == ((n >> 24u64) & 0xff) as u8,
    ;
    assert(b5 as u64 == (n >> 16u64) & 0xff) by (bit_vector)
        requires
            b5 == ((n >> 16u64) & 0xff) as u8,
    ;
    assert(b6 as u64 == (n >> 8u64) & 0xff) by (bit_vector)
        requires
            b6 == ((n >> 8u64) & 0xff) as u8,
    ;
    assert(b7 as u64 == n & 0xff) by (bit_vector)
        requires
            b7 == (n & 0xff) as u8,
    ;
}

} // verus!
