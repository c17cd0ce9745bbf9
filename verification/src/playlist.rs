//! Turning raw playlist text into the ordered list of segment references.
//!
//! A playlist is split into lines (line endings normalized by dropping one
//! trailing carriage return per line); every blank line and every line
//! starting with the directive marker `#` is dropped; each remaining line,
//! in original order, is one segment reference.

use vstd::prelude::*;

verus! {

broadcast use vstd::seq_lib::group_filter_ensures;

/// A line survives the playlist filter: it is non-blank and is not a
/// directive line.
pub open spec fn line_kept(l: Seq<char>) -> bool {
    l.len() > 0 && l[0] != '#'
}

/// One trailing carriage return is dropped from a line.
pub open spec fn strip_cr(l: Seq<char>) -> Seq<char> {
    if l.len() > 0 && l[l.len() - 1] == '\r' {
        l.drop_last()
    } else {
        l
    }
}

/// Index of the first line feed of `s`, or `s.len()` if there is none.
pub open spec fn first_nl(s: Seq<char>) -> int
    decreases s.len(),
{
    if s.len() == 0 {
        0
    } else if s[0] == '\n' {
        0
    } else {
        1 + first_nl(s.drop_first())
    }
}

pub proof fn lemma_first_nl_props(s: Seq<char>)
    ensures
        0 <= first_nl(s) <= s.len(),
        first_nl(s) < s.len() ==> s[first_nl(s)] == '\n',
        forall|j: int| 0 <= j < first_nl(s) ==> s[j] != '\n',
    decreases s.len(),
{
    if s.len() > 0 && s[0] != '\n' {
        lemma_first_nl_props(s.drop_first());
        assert forall|j: int| 0 <= j < first_nl(s) implies s[j] != '\n' by {
            if j > 0 {
                assert(s.drop_first()[j - 1] == s[j]);
            }
        }
    }
}

/// The lines of `s`: the pieces between line feeds, in order.  A final
/// piece after the last line feed appears only if it is non-empty.
pub open spec fn split_lines(s: Seq<char>) -> Seq<Seq<char>>
    decreases s.len(),
    via split_lines_decreases
{
    if s.len() == 0 {
        Seq::empty()
    } else if first_nl(s) == s.len() {
        seq![s]
    } else {
        seq![s.take(first_nl(s))] + split_lines(s.skip(first_nl(s) + 1))
    }
}

#[via_fn]
proof fn split_lines_decreases(s: Seq<char>) {
    lemma_first_nl_props(s);
}

/// The segment references of a playlist text: its lines, normalized,
/// with every blank line and every `#` line dropped, in original order.
pub open spec fn playlist_links(s: Seq<char>) -> Seq<Seq<char>> {
    split_lines(s).map_values(|l: Seq<char>| strip_cr(l)).filter(|l: Seq<char>| line_kept(l))
}

/// `x` can be obtained from `y` by deleting elements, keeping order.
pub open spec fn subsequence_of<A>(x: Seq<A>, y: Seq<A>) -> bool
    decreases x.len() + y.len(),
{
    if x.len() == 0 {
        true
    } else if y.len() == 0 {
        false
    } else if x.last() == y.last() {
        subsequence_of(x.drop_last(), y.drop_last())
    } else {
        subsequence_of(x, y.drop_last())
    }
}

proof fn lemma_subseq_drop_left<A>(x: Seq<A>, y: Seq<A>)
    requires
        x.len() > 0,
        subsequence_of(x, y),
    ensures
        subsequence_of(x.drop_last(), y),
    decreases y.len(),
{
    let xd = x.drop_last();
    let yd = y.drop_last();
    if x.last() == y.last() {
        if xd.len() > 0 {
            if xd.last() == y.last() {
                lemma_subseq_drop_left(xd, yd);
            }
        }
    } else {
        lemma_subseq_drop_left(x, yd);
        if xd.len() > 0 && xd.last() == y.last() {
            lemma_subseq_drop_left(xd, yd);
        }
    }
}

proof fn lemma_subseq_push_right<A>(x: Seq<A>, y: Seq<A>, a: A)
    requires
        subsequence_of(x, y),
    ensures
        subsequence_of(x, y.push(a)),
{
    let yp = y.push(a);
    assert(yp.drop_last() =~= y);
    if x.len() > 0 && x.last() == a {
        lemma_subseq_drop_left(x, y);
    }
}

proof fn lemma_filter_subsequence<A>(t: Seq<A>, pred: spec_fn(A) -> bool)
    ensures
        subsequence_of(t.filter(pred), t),
    decreases t.len(),
{
    reveal(Seq::filter);
    if t.len() > 0 {
        let td = t.drop_last();
        lemma_filter_subsequence(td, pred);
        if pred(t.last()) {
            assert(t.filter(pred).drop_last() =~= td.filter(pred));
        } else {
            lemma_subseq_push_right(td.filter(pred), td, t.last());
            assert(td.push(t.last()) =~= t);
        }
    }
}

/// Law: the parser only excludes lines.  Every reference it keeps is a
/// non-blank, non-directive line.
pub proof fn lemma_playlist_excludes(s: Seq<char>)
    ensures
        forall|i: int|
            0 <= i < playlist_links(s).len() ==> line_kept(#[trigger] playlist_links(s)[i]),
{
}

/// Law: the parser preserves the relative order of the lines it keeps.
/// Its output is a subsequence of the playlist's normalized lines.
pub proof fn lemma_playlist_preserves_order(s: Seq<char>)
    ensures
        subsequence_of(
            playlist_links(s),
            split_lines(s).map_values(|l: Seq<char>| strip_cr(l)),
        ),
{
    lemma_filter_subsequence(
        split_lines(s).map_values(|l: Seq<char>| strip_cr(l)),
        |l: Seq<char>| line_kept(l),
    );
}

/// An ordered list of segment references, as parsed from playlist text.
#[derive(Debug)]
pub struct M3u8Data {
    /// The references, one per kept playlist line, in playlist order.
    pub links: Vec<String>,
}

/// `first_nl` of a suffix of `s`, located by a scan over `s` itself.
proof fn lemma_first_nl_at(s: Seq<char>, start: int, i: int)
    requires
        0 <= start <= i <= s.len(),
        forall|j: int| start <= j < i ==> s[j] != '\n',
        i == s.len() || s[i] == '\n',
    ensures
        first_nl(s.skip(start)) == i - start,
{
    let t = s.skip(start);
    lemma_first_nl_props(t);
    let f = first_nl(t);
    if f < i - start {
        assert(s[start + f] != '\n');
        assert(t[f] == s[start + f]);
    } else if f > i - start {
        assert(i < s.len());
        assert(t[i - start] == s[i]);
    }
}

impl M3u8Data {
    /// Parse playlist text: keep every non-blank, non-directive line, in
    /// original order, with one trailing carriage return per line dropped.
    pub fn new(raw: String) -> (d: M3u8Data)
        ensures
            d.links.deep_view() == playlist_links(raw@),
    {
        let rs: &str = raw.as_str();
        let n: usize = rs.unicode_len();
        let ghost s = rs@;

        let mut links: Vec<String> = Vec::new();
        proof {
            assert(links.deep_view() =~= Seq::<Seq<char>>::empty());
            assert(s.skip(0) =~= s);
            assert(Seq::<Seq<char>>::empty() + playlist_links(s) =~= playlist_links(s));
        }
        let mut start: usize = 0;
        while start < n
            invariant
                0 <= start <= n,
                n == s.len(),
                rs@ == s,
                links.deep_view() + playlist_links(s.skip(start as int)) == playlist_links(s),
            decreases n - start,
        {
            // Scan to the next line feed, or to the end.
            let mut i: usize = start;
            while i < n && rs.get_char(i) != '\n'
                invariant
                    start <= i <= n,
                    n == s.len(),
                    rs@ == s,
                    forall|j: int| start <= j < i ==> s[j] != '\n',
                decreases n - i,
            {
                i = i + 1;
            }
            let ghost t = s.skip(start as int);
            proof {
                lemma_first_nl_at(s, start as int, i as int);
            }

            // Normalize the line ending.
            let end: usize = if i > start && rs.get_char(i - 1) == '\r' {
                i - 1
            } else {
                i
            };
            let ghost line_full = s.subrange(start as int, i as int);
            let ghost line = strip_cr(line_full);
            proof {
                assert(line_full == t.take(first_nl(t))) by {
                    assert(line_full =~= t.take(first_nl(t)));
                }
                if i > start && s[i - 1] == '\r' {
                    assert(line =~= s.subrange(start as int, end as int));
                } else {
                    assert(line =~= s.subrange(start as int, end as int));
                }
            }

            let ghost old_links = links.deep_view();
            if end > start && rs.get_char(start) != '#' {
                let piece: &str = rs.substring_char(start, end);
                links.push(piece.to_owned());
                proof {
                    assert(links.deep_view() =~= old_links + seq![line]);
                    assert(line_kept(line));
                }
            } else {
                proof {
                    if end > start {
                        assert(line[0] == line_full[0]);
                        assert(!line_kept(line));
                    } else {
                        assert(line.len() == 0);
                        assert(!line_kept(line));
                    }
                }
            }

            // Account for the consumed line in the remaining suffix.
            proof {
                let pred = |l: Seq<char>| line_kept(l);
                let f = |l: Seq<char>| strip_cr(l);
                if i < n {
                    assert(split_lines(t) == seq![line_full] + split_lines(
                        t.skip(first_nl(t) + 1),
                    ));
                    assert(t.skip(first_nl(t) + 1) =~= s.skip(i + 1));
                    let a = seq![line_full];
                    let b = split_lines(s.skip(i + 1));
                    assert((a + b).map_values(f) =~= a.map_values(f) + b.map_values(f));
                    assert(a.map_values(f) =~= seq![line]);
                    assert((seq![line] + b.map_values(f)).filter(pred) == seq![line].filter(pred)
                        + b.map_values(f).filter(pred));
                    assert(seq![line].filter(pred) =~= if line_kept(line) {
                        seq![line]
                    } else {
                        Seq::<Seq<char>>::empty()
                    }) by {
                        reveal_with_fuel(Seq::<_>::filter, 2);
                        assert(seq![line].drop_last() =~= Seq::<Seq<char>>::empty());
                    }
                    assert(playlist_links(t) =~= seq![line].filter(pred) + playlist_links(
                        s.skip(i + 1),
                    ));
                } else {
                    assert(t.len() > 0);
                    assert(first_nl(t) == t.len());
                    assert(split_lines(t) == seq![t]);
                    assert(t == line_full);
                    assert(split_lines(t).map_values(f) =~= seq![line]);
                    assert(seq![line].filter(pred) =~= if line_kept(line) {
                        seq![line]
                    } else {
                        Seq::<Seq<char>>::empty()
                    }) by {
                        reveal_with_fuel(Seq::<_>::filter, 2);
                        assert(seq![line].drop_last() =~= Seq::<Seq<char>>::empty());
                    }
                    assert(s.skip(n as int).len() == 0);
                    assert(playlist_links(s.skip(n as int)) =~= Seq::<Seq<char>>::empty());
                }
            }
            start = if i < n {
                i + 1
            } else {
                n
            };
        }
        proof {
            assert(s.skip(n as int).len() == 0);
            assert(playlist_links(s.skip(n as int)) =~= Seq::<Seq<char>>::empty());
            assert(links.deep_view() =~= playlist_links(s));
        }
        M3u8Data { links }
    }
}

/// The media-playlist URL chosen from a master playlist: its first
/// non-blank, non-directive line, if any.
pub fn choose_media_url(text: &str) -> (r: Option<String>)
    ensures
        match r {
            Some(u) => playlist_links(text@).len() > 0 && u@ == playlist_links(text@)[0],
            None => playlist_links(text@).len() == 0,
        },
{
    let d = M3u8Data::new(text.to_owned());
    if d.links.len() > 0 {
        let u = d.links[0].clone();
        proof {
            assert(d.links.deep_view()[0] == d.links[0]@);
        }
        Some(u)
    } else {
        proof {
            assert(d.links.deep_view().len() == d.links@.len());
        }
        None
    }
}

} // verus!
