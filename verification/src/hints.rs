//! The row of key hints under each view: `Key description  ·  Key description`.

use vstd::prelude::*;

verus! {

/// How a piece of the hint row is drawn.
#[derive(Clone, Copy, Debug, PartialEq, Eq, Structural)]
pub enum HintStyle {
    /// The leading space.
    Plain,
    /// The dot between two hints.
    Separator,
    /// A key.
    Key,
    /// What a key does.
    Description,
}

/// The pieces of the hint row for `pairs` of key and description: a space, then for each
/// pair its key and its description after a space, with a dot between two pairs.
pub open spec fn hint_spans(pairs: Seq<(Seq<char>, Seq<char>)>) -> Seq<(HintStyle, Seq<char>)>
    decreases pairs.len(),
{
    if pairs.len() == 0 {
        seq![(HintStyle::Plain, seq![' '])]
    } else {
        let pre = hint_spans(pairs.drop_last());
        let sep = if pairs.len() > 1 {
            seq![(HintStyle::Separator, seq![' ', ' ', '·', ' ', ' '])]
        } else {
            Seq::empty()
        };
        let (key, desc) = pairs.last();
        pre + sep + seq![(HintStyle::Key, key), (HintStyle::Description, seq![' '] + desc)]
    }
}

/// The pieces as character sequences.
pub open spec fn hint_views(v: Seq<(HintStyle, String)>) -> Seq<(HintStyle, Seq<char>)> {
    v.map_values(|p: (HintStyle, String)| (p.0, p.1@))
}

/// The pairs as character sequences.
pub open spec fn pair_views(v: Seq<(&str, &str)>) -> Seq<(Seq<char>, Seq<char>)> {
    v.map_values(|p: (&str, &str)| (p.0@, p.1@))
}

/// Renders a row of key hints as `Key description  ·  Key description`.
pub fn hints(pairs: &[(&str, &str)]) -> (r: Vec<(HintStyle, String)>)
    ensures
        hint_views(r@) == hint_spans(pair_views(pairs@)),
{
    let ghost ps = pair_views(pairs@);
    let mut r: Vec<(HintStyle, String)> = Vec::new();
    proof {
        reveal_strlit(" ");
        reveal_strlit("  ·  ");
        assert(" "@ =~= seq![' ']);
        assert("  ·  "@ =~= seq![' ', ' ', '·', ' ', ' ']);
    }
    r.push((HintStyle::Plain, " ".to_owned()));
    assert(hint_views(r@) =~= hint_spans(ps.take(0))) by {
        assert(ps.take(0) =~= Seq::<(Seq<char>, Seq<char>)>::empty());
    }
    let mut i: usize = 0;
    while i < pairs.len()
        invariant
            ps == pair_views(pairs@),
            i <= pairs.len(),
            hint_views(r@) == hint_spans(ps.take(i as int)),
            " "@ == seq![' '],
            "  ·  "@ == seq![' ', ' ', '·', ' ', ' '],
        decreases pairs.len() - i,
    {
        let ghost before = hint_views(r@);
        assert(ps.take(i + 1).drop_last() =~= ps.take(i as int));
        assert(ps.take(i + 1).last() == ps[i as int]);
        if i > 0 {
            r.push((HintStyle::Separator, "  ·  ".to_owned()));
        }
        let (key, desc) = pairs[i];
        r.push((HintStyle::Key, key.to_owned()));
        let mut d = " ".to_owned();
        d.append(desc);
        r.push((HintStyle::Description, d));
        let ghost sep = if i > 0 {
            seq![(HintStyle::Separator, seq![' ', ' ', '·', ' ', ' '])]
        } else {
            Seq::<(HintStyle, Seq<char>)>::empty()
        };
        assert(hint_views(r@) =~= before + sep + seq![
            (HintStyle::Key, key@),
            (HintStyle::Description, seq![' '] + desc@),
        ]);
        i = i + 1;
    }
    assert(ps.take(pairs.len() as int) =~= ps);
    r
}

} // verus!
