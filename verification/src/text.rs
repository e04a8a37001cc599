//! Character-level helpers on strings, with their mathematical meaning.

use vstd::prelude::*;

verus! {

/// The pieces of `s` between occurrences of `sep`, exactly as `str::split`
/// yields them (so a string without `sep` is one piece, and the empty string
/// is one empty piece).
pub open spec fn split_pieces(s: Seq<char>, sep: char) -> Seq<Seq<char>>
    decreases s.len(),
{
    if s.len() == 0 {
        seq![Seq::<char>::empty()]
    } else {
        let prev = split_pieces(s.drop_last(), sep);
        if s.last() == sep {
            prev.push(Seq::<char>::empty())
        } else {
            prev.drop_last().push(prev.last().push(s.last()))
        }
    }
}

/// The filter that keeps the non-empty pieces.
pub open spec fn non_empty_piece() -> spec_fn(Seq<char>) -> bool {
    |p: Seq<char>| p.len() > 0
}

/// The non-empty pieces of `s` between `/` separators, in order.
pub open spec fn path_segments(s: Seq<char>) -> Seq<Seq<char>> {
    split_pieces(s, '/').filter(non_empty_piece())
}

/// The character contents of a sequence of strings.
pub open spec fn strings_view(v: Seq<String>) -> Seq<Seq<char>> {
    v.map_values(|s: String| s@)
}

/// `k` is the position of the first occurrence of `c` in `s`.
pub open spec fn is_first_index(s: Seq<char>, c: char, k: int) -> bool {
    &&& 0 <= k < s.len()
    &&& s[k] == c
    &&& forall|j: int| 0 <= j < k ==> s[j] != c
}

/// The position of the first occurrence of `c` in `s`, or `s.len()` where
/// `c` does not occur.
pub open spec fn first_index_or_len(s: Seq<char>, c: char) -> int {
    if exists|k: int| is_first_index(s, c, k) {
        choose|k: int| is_first_index(s, c, k)
    } else {
        s.len() as int
    }
}

pub proof fn lemma_split_pieces_nonempty(s: Seq<char>, sep: char)
    ensures
        split_pieces(s, sep).len() >= 1,
    decreases s.len(),
{
    if s.len() > 0 {
        lemma_split_pieces_nonempty(s.drop_last(), sep);
    }
}

/// The empty string has no segments.
pub proof fn lemma_path_segments_empty()
    ensures
        path_segments(Seq::<char>::empty()) =~= Seq::<Seq<char>>::empty(),
{
    let ps = split_pieces(Seq::<char>::empty(), '/');
    assert(ps =~= Seq::<Seq<char>>::empty().push(Seq::<char>::empty()));
    Seq::<Seq<char>>::empty().lemma_filter_push(Seq::<char>::empty(), non_empty_piece());
    reveal(Seq::filter);
}

proof fn lemma_split_pieces_free_of_sep(s: Seq<char>, sep: char)
    ensures
        forall|i: int| 0 <= i < split_pieces(s, sep).len() ==> !(#[trigger] split_pieces(s, sep)[i]).contains(sep),
    decreases s.len(),
{
    if s.len() > 0 {
        lemma_split_pieces_free_of_sep(s.drop_last(), sep);
        lemma_split_pieces_nonempty(s.drop_last(), sep);
        let prev = split_pieces(s.drop_last(), sep);
        let cur = split_pieces(s, sep);
        if s.last() != sep {
            assert forall|i: int| 0 <= i < cur.len() implies !(#[trigger] cur[i]).contains(sep) by {
                if i < cur.len() - 1 {
                    assert(cur[i] == prev[i]);
                } else {
                    let last = prev.last();
                    assert(!last.contains(sep));
                    if cur[i].contains(sep) {
                        let j = choose|j: int| 0 <= j < cur[i].len() && cur[i][j] == sep;
                        assert(cur[i] == last.push(s.last()));
                        if j < last.len() {
                            assert(last[j] == sep);
                        }
                    }
                }
            }
        } else {
            assert forall|i: int| 0 <= i < cur.len() implies !(#[trigger] cur[i]).contains(sep) by {
                if i < cur.len() - 1 {
                    assert(cur[i] == prev[i]);
                }
            }
        }
    }
}

/// The segments of a path are non-empty and hold no separator: reading a
/// structure never yields an empty directory name or one with a `/`.
pub proof fn law_path_segments_clean(s: Seq<char>)
    ensures
        forall|i: int| 0 <= i < path_segments(s).len() ==> (#[trigger] path_segments(s)[i]).len() > 0
            && !path_segments(s)[i].contains('/'),
{
    let pieces = split_pieces(s, '/');
    lemma_split_pieces_free_of_sep(s, '/');
    broadcast use vstd::seq_lib::group_filter_ensures;
    assert forall|i: int| 0 <= i < path_segments(s).len() implies (#[trigger] path_segments(s)[i]).len() > 0
        && !path_segments(s)[i].contains('/') by {
        let seg = path_segments(s)[i];
        assert(pieces.filter(non_empty_piece()).contains(seg));
        pieces.lemma_filter_contains_rev(non_empty_piece(), seg);
        let j = choose|j: int| 0 <= j < pieces.len() && pieces[j] == seg;
        assert(!pieces[j].contains('/'));
    }
}

/// A text reads as no directory names exactly when it holds nothing but
/// separators: `""`, `"/"` and `"//"` name nothing, anything else names
/// something.
pub proof fn law_no_segments_iff_only_separators(s: Seq<char>)
    ensures
        path_segments(s).len() == 0 <==> (forall|i: int| 0 <= i < s.len() ==> s[i] == '/'),
    decreases s.len(),
{
    if s.len() == 0 {
        lemma_path_segments_empty();
    } else {
        let t = s.drop_last();
        law_no_segments_iff_only_separators(t);
        lemma_split_pieces_nonempty(t, '/');
        let prev = split_pieces(t, '/');
        if s.last() == '/' {
            prev.lemma_filter_push(Seq::<char>::empty(), non_empty_piece());
            assert(path_segments(s) == path_segments(t));
            if forall|i: int| 0 <= i < t.len() ==> t[i] == '/' {
                assert forall|i: int| 0 <= i < s.len() implies s[i] == '/' by {
                    if i < t.len() {
                        assert(s[i] == t[i]);
                    }
                }
            } else {
                let i = choose|i: int| 0 <= i < t.len() && t[i] != '/';
                assert(s[i] == t[i]);
            }
        } else {
            let piece = prev.last().push(s.last());
            prev.drop_last().lemma_filter_push(piece, non_empty_piece());
            assert(path_segments(s).len() > 0);
            assert(s[s.len() - 1] != '/');
        }
    }
}

/// The names `ss` written one after the other, with a `/` between each two.
pub open spec fn joined_segments(ss: Seq<Seq<char>>) -> Seq<char>
    decreases ss.len(),
{
    if ss.len() == 0 {
        Seq::empty()
    } else if ss.len() == 1 {
        ss[0]
    } else {
        joined_segments(ss.drop_last()) + seq!['/'] + ss.last()
    }
}

proof fn lemma_split_concat(a: Seq<char>, b: Seq<char>, sep: char)
    ensures
        split_pieces(a + seq![sep] + b, sep) == split_pieces(a, sep) + split_pieces(b, sep),
    decreases b.len(),
{
    let ab = a + seq![sep] + b;
    if b.len() == 0 {
        assert(ab.drop_last() =~= a);
        assert(split_pieces(b, sep) =~= seq![Seq::<char>::empty()]);
        assert(split_pieces(ab, sep) =~= split_pieces(a, sep) + split_pieces(b, sep));
    } else {
        let b0 = b.drop_last();
        lemma_split_concat(a, b0, sep);
        lemma_split_pieces_nonempty(b0, sep);
        assert(ab.drop_last() =~= a + seq![sep] + b0);
        assert(ab.last() == b.last());
        let pa = split_pieces(a, sep);
        let pb0 = split_pieces(b0, sep);
        let prev = pa + pb0;
        if b.last() != sep {
            assert(prev.last() == pb0.last());
            assert(prev.drop_last() =~= pa + pb0.drop_last());
        }
        assert(split_pieces(ab, sep) =~= split_pieces(a, sep) + split_pieces(b, sep));
    }
}

proof fn lemma_split_single(x: Seq<char>, sep: char)
    requires
        !x.contains(sep),
    ensures
        split_pieces(x, sep) == seq![x],
    decreases x.len(),
{
    if x.len() > 0 {
        let x0 = x.drop_last();
        assert(!x0.contains(sep)) by {
            if x0.contains(sep) {
                let j = choose|j: int| 0 <= j < x0.len() && x0[j] == sep;
                assert(x[j] == sep);
            }
        }
        lemma_split_single(x0, sep);
        assert(x[x.len() - 1] != sep);
        assert(x0.push(x.last()) =~= x);
        assert(split_pieces(x, sep) =~= seq![x]);
    } else {
        assert(x =~= Seq::<char>::empty());
    }
}

proof fn lemma_split_joined(ss: Seq<Seq<char>>)
    requires
        ss.len() > 0,
        forall|i: int| 0 <= i < ss.len() ==> !(#[trigger] ss[i]).contains('/'),
    ensures
        split_pieces(joined_segments(ss), '/') == ss,
    decreases ss.len(),
{
    if ss.len() == 1 {
        lemma_split_single(ss[0], '/');
        assert(seq![ss[0]] =~= ss);
    } else {
        let s0 = ss.drop_last();
        assert forall|i: int| 0 <= i < s0.len() implies !(#[trigger] s0[i]).contains('/') by {
            assert(s0[i] == ss[i]);
        }
        lemma_split_joined(s0);
        lemma_split_concat(joined_segments(s0), ss.last(), '/');
        lemma_split_single(ss.last(), '/');
        assert(s0 + seq![ss.last()] =~= ss);
    }
}

proof fn lemma_filter_keeps_all(ss: Seq<Seq<char>>)
    requires
        forall|i: int| 0 <= i < ss.len() ==> (#[trigger] ss[i]).len() > 0,
    ensures
        ss.filter(non_empty_piece()) == ss,
    decreases ss.len(),
{
    if ss.len() == 0 {
        reveal(Seq::filter);
    } else {
        let s0 = ss.drop_last();
        assert forall|i: int| 0 <= i < s0.len() implies (#[trigger] s0[i]).len() > 0 by {
            assert(s0[i] == ss[i]);
        }
        lemma_filter_keeps_all(s0);
        s0.lemma_filter_push(ss.last(), non_empty_piece());
        assert(s0.push(ss.last()) =~= ss);
    }
}

/// Reading back a structure that was written out gives it back: directory
/// names that are non-empty and hold no `/`, written with `/` between them,
/// read as the same names in the same order.
pub proof fn law_segments_round_trip(ss: Seq<Seq<char>>)
    requires
        forall|i: int| 0 <= i < ss.len() ==> (#[trigger] ss[i]).len() > 0 && !ss[i].contains('/'),
    ensures
        path_segments(joined_segments(ss)) == ss,
{
    if ss.len() == 0 {
        lemma_path_segments_empty();
    } else {
        lemma_split_joined(ss);
        lemma_filter_keeps_all(ss);
    }
}

/// Where `c` occurs, it has a first occurrence.
pub proof fn lemma_first_index_exists(s: Seq<char>, c: char, j: int)
    requires
        0 <= j < s.len(),
        s[j] == c,
    ensures
        is_first_index(s, c, first_index_or_len(s, c)),
        first_index_or_len(s, c) <= j,
    decreases j,
{
    if exists|l: int| 0 <= l < j && s[l] == c {
        let l = choose|l: int| 0 <= l < j && s[l] == c;
        lemma_first_index_exists(s, c, l);
    } else {
        assert(is_first_index(s, c, j));
        lemma_first_index_unique(s, c, j);
    }
}

proof fn lemma_first_index_unique(s: Seq<char>, c: char, k: int)
    requires
        is_first_index(s, c, k),
    ensures
        first_index_or_len(s, c) == k,
{
    let m = choose|m: int| is_first_index(s, c, m);
    assert(is_first_index(s, c, m));
    if m < k {
        assert(s[m] != c);
    } else if k < m {
        assert(s[k] != c);
    }
}

/// Finds the first position of `c` in `s`.
pub fn find_char(s: &str, c: char) -> (res: Option<usize>)
    ensures
        match res {
            Some(k) => is_first_index(s@, c, k as int) && first_index_or_len(s@, c) == k,
            None => (forall|j: int| 0 <= j < s@.len() ==> s@[j] != c) && first_index_or_len(s@, c)
                == s@.len(),
        },
{
    let n = s.unicode_len();
    let mut i: usize = 0;
    while i < n
        invariant
            n == s@.len(),
            i <= n,
            forall|j: int| 0 <= j < i ==> s@[j] != c,
        decreases n - i,
    {
        if s.get_char(i) == c {
            proof {
                lemma_first_index_unique(s@, c, i as int);
            }
            return Some(i);
        }
        i = i + 1;
    }
    proof {
        assert forall|k: int| !is_first_index(s@, c, k) by {
            if 0 <= k < s@.len() {
                assert(s@[k] != c);
            }
        }
    }
    None
}

/// Splits `s` on `/` and keeps the non-empty pieces, as
/// `s.split('/').filter(|p| !p.is_empty())` does.
pub fn split_path_segments(s: &str) -> (res: Vec<String>)
    ensures
        strings_view(res@) == path_segments(s@),
{
    let n = s.unicode_len();
    let mut out: Vec<String> = Vec::new();
    let mut start: usize = 0;
    let mut i: usize = 0;
    let ghost mut done: Seq<Seq<char>> = Seq::empty();
    assert(s@.take(0) =~= Seq::<char>::empty());
    while i < n
        invariant
            n == s@.len(),
            start <= i <= n,
            split_pieces(s@.take(i as int), '/') == done.push(s@.subrange(start as int, i as int)),
            strings_view(out@) == done.filter(non_empty_piece()),
        decreases n - i,
    {
        let c = s.get_char(i);
        let ghost cur = s@.subrange(start as int, i as int);
        proof {
            assert(s@.take(i + 1).drop_last() =~= s@.take(i as int));
            assert(s@.take(i + 1).last() == c);
            assert(done.push(cur).drop_last() =~= done);
            done.lemma_filter_push(cur, non_empty_piece());
        }
        if c == '/' {
            if start < i {
                let ghost before = out@;
                let piece = String::from_str(s.substring_char(start, i));
                out.push(piece);
                proof {
                    assert(strings_view(out@) =~= strings_view(before).push(cur));
                }
            }
            proof {
                assert(strings_view(out@) == done.push(cur).filter(non_empty_piece()));
                done = done.push(cur);
                assert(s@.subrange(i + 1, i + 1) =~= Seq::<char>::empty());
            }
            start = i + 1;
        } else {
            proof {
                assert(s@.subrange(start as int, i + 1) =~= cur.push(c));
            }
        }
        i = i + 1;
    }
    assert(s@.take(n as int) =~= s@);
    let ghost cur = s@.subrange(start as int, n as int);
    assert(done.push(cur).drop_last() =~= done);
    proof {
        done.lemma_filter_push(cur, non_empty_piece());
    }
    if start < n {
        let ghost before = out@;
        let piece = String::from_str(s.substring_char(start, n));
        out.push(piece);
        assert(strings_view(out@) =~= strings_view(before).push(cur));
    }
    out
}

} // verus!
