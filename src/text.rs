use vstd::prelude::*;

verus! {

/// The position of the last line feed in `s`, or -1 when it holds none.
pub open spec fn last_feed(s: Seq<char>) -> int
    decreases s.len(),
{
    if s.len() == 0 {
        -1
    } else if s.last() == '\n' {
        s.len() - 1
    } else {
        last_feed(s.drop_last())
    }
}

/// `s` without one carriage return at its end.
pub open spec fn strip_cr(s: Seq<char>) -> Seq<char> {
    if s.len() > 0 && s.last() == '\r' {
        s.drop_last()
    } else {
        s
    }
}

/// The lines of a text: the pieces between line feeds, each without the
/// carriage return that ends it when a line feed follows; no empty line after a
/// final line feed, and none in an empty text.
pub open spec fn lines_in(t: Seq<char>) -> Seq<Seq<char>>
    decreases t.len(),
    via lines_in_decreases
{
    if t.len() == 0 {
        Seq::empty()
    } else if t.last() == '\n' {
        let body = t.drop_last();
        let k = last_feed(body);
        lines_in(t.take(k + 1)).push(strip_cr(body.skip(k + 1)))
    } else {
        let k = last_feed(t);
        lines_in(t.take(k + 1)).push(t.skip(k + 1))
    }
}

#[via_fn]
proof fn lines_in_decreases(t: Seq<char>) {
    if t.len() > 0 {
        lemma_last_feed_bound(t.drop_last());
        lemma_last_feed_bound(t);
    }
}

proof fn lemma_last_feed_bound(s: Seq<char>)
    ensures
        -1 <= last_feed(s) < s.len(),
        last_feed(s) >= 0 ==> s[last_feed(s)] == '\n',
        s.len() > 0 && s.last() != '\n' ==> last_feed(s) < s.len() - 1,
    decreases s.len(),
{
    if s.len() > 0 && s.last() != '\n' {
        lemma_last_feed_bound(s.drop_last());
    }
}

/// Text without line feeds leaves the last line feed where it was.
pub(crate) proof fn lemma_last_feed_append(a: Seq<char>, b: Seq<char>)
    requires
        forall|j: int| 0 <= j < b.len() ==> #[trigger] b[j] != '\n',
    ensures
        last_feed(a + b) == last_feed(a),
    decreases b.len(),
{
    if b.len() > 0 {
        assert((a + b).drop_last() =~= a + b.drop_last());
        lemma_last_feed_append(a, b.drop_last());
    } else {
        assert(a + b =~= a);
    }
}

/// Relies on `String::push`: the character is appended at the end.
#[verifier::external_body]
pub(crate) fn push_char(s: &mut String, c: char)
    ensures
        final(s)@ == old(s)@.push(c),
{
    s.push(c)
}

/// The characters of `s` as a vector.
pub fn chars_of(s: &str) -> (r: Vec<char>)
    ensures
        r@ == s@,
{
    let n = s.unicode_len();
    let mut r: Vec<char> = Vec::new();
    let mut i: usize = 0;
    while i < n
        invariant
            n == s@.len(),
            i <= n,
            r@ == s@.subrange(0, i as int),
        decreases n - i,
    {
        r.push(s.get_char(i));
        i = i + 1;
    }
    assert(r@ =~= s@);
    r
}

/// The characters `v[from..to]` as a string.
pub fn string_of_range(v: &Vec<char>, from: usize, to: usize) -> (r: String)
    requires
        from <= to <= v@.len(),
    ensures
        r@ == v@.subrange(from as int, to as int),
{
    let mut r = String::new();
    let mut i: usize = from;
    while i < to
        invariant
            from <= i <= to,
            to <= v@.len(),
            r@ == v@.subrange(from as int, i as int),
        decreases to - i,
    {
        push_char(&mut r, v[i]);
        assert(r@ =~= v@.subrange(from as int, i + 1));
        i = i + 1;
    }
    r
}

/// The lines of `text`, as `lines_in` says.
pub fn split_lines(text: &str) -> (r: Vec<String>)
    ensures
        views_of(r@) == lines_in(text@),
        forall|i: int, j: int|
            0 <= i < r@.len() && 0 <= j < r@[i]@.len() ==> #[trigger] r@[i]@[j] != '\n',
{
    let v = chars_of(text);
    let n = v.len();
    let mut r: Vec<String> = Vec::new();
    let mut start: usize = 0;
    let mut j: usize = 0;
    while j < n
        invariant
            n == v@.len(),
            v@ == text@,
            start <= j <= n,
            start == 0 || v@[start - 1] == '\n',
            forall|k: int| start <= k < j ==> #[trigger] v@[k] != '\n',
            views_of(r@) == lines_in(v@.take(start as int)),
            forall|i: int, k: int|
                0 <= i < r@.len() && 0 <= k < r@[i]@.len() ==> #[trigger] r@[i]@[k] != '\n',
        decreases n - j,
    {
        if v[j] == '\n' {
            let end: usize = if j > start && v[j - 1] == '\r' { j - 1 } else { j };
            let piece = string_of_range(&v, start, end);
            proof {
                let t = v@.take(j + 1);
                let body = t.drop_last();
                assert(body =~= v@.take(start as int) + v@.subrange(start as int, j as int));
                lemma_last_feed_append(v@.take(start as int), v@.subrange(start as int, j as int));
                if start > 0 {
                    assert(v@.take(start as int).last() == '\n');
                } else {
                    assert(v@.take(0) =~= Seq::<char>::empty());
                }
                assert(last_feed(body) == start - 1);
                assert(t.take(start as int) =~= v@.take(start as int));
                assert(body.skip(start as int) =~= v@.subrange(start as int, j as int));
                assert(piece@ =~= strip_cr(body.skip(start as int)));
                assert(lines_in(t) == lines_in(v@.take(start as int)).push(piece@));
            }
            let ghost before = r@;
            r.push(piece);
            assert(views_of(r@) =~= views_of(before).push(piece@));
            start = j + 1;
        }
        j = j + 1;
    }
    if start < n {
        let piece = string_of_range(&v, start, n);
        proof {
            let t = v@;
            assert(t =~= v@.take(start as int) + v@.subrange(start as int, n as int));
            lemma_last_feed_append(v@.take(start as int), v@.subrange(start as int, n as int));
            if start > 0 {
                assert(v@.take(start as int).last() == '\n');
            } else {
                assert(v@.take(0) =~= Seq::<char>::empty());
            }
            assert(t.last() == v@[n - 1]);
            assert(t.take(start as int) =~= v@.take(start as int));
            assert(t.skip(start as int) =~= piece@);
        }
        let ghost before = r@;
        r.push(piece);
        assert(views_of(r@) =~= views_of(before).push(piece@));
    } else {
        assert(v@.take(start as int) =~= v@);
    }
    r
}

/// The characters of each string.
pub open spec fn views_of(v: Seq<String>) -> Seq<Seq<char>> {
    v.map_values(|s: String| s@)
}

} // verus!
