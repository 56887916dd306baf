//! Reversal of a line by extended grapheme cluster.

use unicode_segmentation::UnicodeSegmentation;
use vstd::prelude::*;
use vstd::seq_lib::lemma_flatten_concat;

verus! {

/// The extended grapheme clusters of a text, in order.
pub uninterp spec fn extended_graphemes(s: Seq<char>) -> Seq<Seq<char>>;

/// The character sequences held by a list of strings.
pub open spec fn texts(v: Seq<String>) -> Seq<Seq<char>> {
    v.map_values(|g: String| g@)
}

/// A line with its grapheme clusters in reverse order, each cluster kept whole.
pub open spec fn reversed_line(s: Seq<char>) -> Seq<char> {
    extended_graphemes(s).reverse().flatten()
}

/// Relies on `UnicodeSegmentation::graphemes` with extended clusters: it walks
/// the string from start to end and hands out consecutive non-empty slices.
#[verifier::external_body]
fn graphemes(line: &str) -> (r: Vec<String>)
    ensures
        texts(r@) == extended_graphemes(line@),
        texts(r@).flatten() == line@,
        forall|i: int| 0 <= i < r@.len() ==> (#[trigger] r@[i])@.len() > 0,
{
    line.graphemes(true).map(|g| g.to_string()).collect()
}

/// Relies on `String::push_str`: appends `t` to the end of `s`.
#[verifier::external_body]
pub(crate) fn push_text(s: &mut String, t: &str)
    ensures
        final(s)@ == old(s)@ + t@,
{
    s.push_str(t);
}

/// Joins the given clusters, last one first.
pub fn join_reversed(clusters: &Vec<String>) -> (r: String)
    ensures
        r@ == texts(clusters@).reverse().flatten(),
{
    let mut out = String::new();
    let mut i: usize = clusters.len();
    while i > 0
        invariant
            i <= clusters.len(),
            out@ == texts(clusters@).subrange(i as int, clusters@.len() as int).reverse().flatten(),
        decreases i,
    {
        i = i - 1;
        let ghost all = texts(clusters@);
        let ghost before = all.subrange(i + 1, all.len() as int).reverse();
        push_text(&mut out, clusters[i].as_str());
        proof {
            assert(all.subrange(i as int, all.len() as int).reverse() =~= before.push(all[i as int]));
            before.lemma_flatten_push(all[i as int]);
        }
    }
    proof {
        assert(texts(clusters@).subrange(0, clusters@.len() as int) =~= texts(clusters@));
    }
    out
}

/// Reverses a line by extended grapheme cluster.
pub fn reverse_line(line: &str) -> (r: String)
    ensures
        r@ == reversed_line(line@),
{
    let clusters = graphemes(line);
    join_reversed(&clusters)
}

/// Reversing a cluster sequence twice gives it back, so joining it again
/// gives back the original line.
pub proof fn lemma_reversal_involution(clusters: Seq<Seq<char>>)
    ensures
        clusters.reverse().reverse() == clusters,
        clusters.reverse().reverse().flatten() == clusters.flatten(),
{
    assert(clusters.reverse().reverse() =~= clusters);
}

/// Where cluster `i` starts in the reversed text: after the clusters that
/// followed it in the line.
pub open spec fn reversed_offset(clusters: Seq<Seq<char>>, i: int) -> int {
    clusters.reverse().subrange(0, clusters.len() - 1 - i).flatten().len() as int
}

/// Every cluster appears whole in the reversed text, its characters in their
/// original order: reversal never splits a cluster.
pub proof fn lemma_cluster_atomicity(clusters: Seq<Seq<char>>, i: int)
    requires
        0 <= i < clusters.len(),
    ensures
        ({
            let p = reversed_offset(clusters, i);
            clusters.reverse().flatten().subrange(p, p + clusters[i].len()) == clusters[i]
        }),
{
    let rv = clusters.reverse();
    let k = clusters.len() - 1 - i;
    let front = rv.subrange(0, k);
    let back = rv.subrange(k + 1, rv.len() as int);
    assert(rv[k] == clusters[i]);
    assert(rv =~= front + (seq![rv[k]] + back));
    lemma_flatten_concat(front, seq![rv[k]] + back);
    lemma_flatten_concat(seq![rv[k]], back);
    seq![rv[k]].lemma_flatten_one_element();
    let p = front.flatten().len() as int;
    assert(rv.flatten().subrange(p, p + clusters[i].len()) =~= clusters[i]);
}

} // verus!
