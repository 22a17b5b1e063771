//! Runs of ordered deltas: joining neighbours without moving anything.

use vstd::prelude::*;

use super::types::{CallView, DeltaView, UnifiedDelta};

verus! {

/// The run `out` followed by `delta`, where text joins text and reasoning joins
/// reasoning.
pub open spec fn join_last(out: Seq<DeltaView>, delta: DeltaView) -> Seq<DeltaView> {
    if out.len() == 0 {
        out.push(delta)
    } else {
        match (out.last(), delta) {
            (DeltaView::Text(before), DeltaView::Text(text)) => out.drop_last().push(
                DeltaView::Text(before + text),
            ),
            (DeltaView::Reasoning(before), DeltaView::Reasoning(text)) => out.drop_last().push(
                DeltaView::Reasoning(before + text),
            ),
            _ => out.push(delta),
        }
    }
}

/// The run with every two neighbours of one prose kind joined.
pub open spec fn coalesced(deltas: Seq<DeltaView>) -> Seq<DeltaView>
    decreases deltas.len(),
{
    if deltas.len() == 0 {
        deltas
    } else {
        join_last(coalesced(deltas.drop_last()), deltas.last())
    }
}

/// One text delta, or none when there is no text.
pub open spec fn text_deltas(text: Seq<char>) -> Seq<DeltaView> {
    if text.len() == 0 {
        seq![]
    } else {
        seq![DeltaView::Text(text)]
    }
}

/// One text delta, or nothing at all when the text is empty: an empty content chunk
/// says nothing and would be rendered as a stray empty string.
pub fn text_delta(text: String) -> (deltas: Vec<UnifiedDelta>)
    ensures
        deltas.deep_view() == text_deltas(text@),
{
    let mut deltas: Vec<UnifiedDelta> = Vec::new();
    if !text.as_str().is_empty() {
        deltas.push(UnifiedDelta::Text { text });
    }
    assert(deltas.deep_view() =~= text_deltas(text@));
    deltas
}

/// `out` with `text` joined to its last delta, when that is text too.
fn push_text(out: &mut Vec<UnifiedDelta>, text: String)
    ensures
        final(out).deep_view() == join_last(old(out).deep_view(), DeltaView::Text(text@)),
{
    let ghost before = out.deep_view();
    match out.pop() {
        Some(UnifiedDelta::Text { text: joined }) => {
            let mut joined = joined;
            joined.append(text.as_str());
            out.push(UnifiedDelta::Text { text: joined });
        },
        Some(other) => {
            out.push(other);
            out.push(UnifiedDelta::Text { text });
        },
        None => {
            out.push(UnifiedDelta::Text { text });
        },
    }
    assert(out.deep_view() =~= join_last(before, DeltaView::Text(text@)));
}

/// `out` with `text` joined to its last delta, when that is reasoning too.
fn push_reasoning(out: &mut Vec<UnifiedDelta>, text: String)
    ensures
        final(out).deep_view() == join_last(old(out).deep_view(), DeltaView::Reasoning(text@)),
{
    let ghost before = out.deep_view();
    match out.pop() {
        Some(UnifiedDelta::Reasoning { text: joined }) => {
            let mut joined = joined;
            joined.append(text.as_str());
            out.push(UnifiedDelta::Reasoning { text: joined });
        },
        Some(other) => {
            out.push(other);
            out.push(UnifiedDelta::Reasoning { text });
        },
        None => {
            out.push(UnifiedDelta::Reasoning { text });
        },
    }
    assert(out.deep_view() =~= join_last(before, DeltaView::Reasoning(text@)));
}

/// Joins neighbouring deltas of one prose kind, so that one advance of the parser does
/// not become several chunks that say the same thing.
///
/// Tool-call deltas are never joined: fragments of different calls would fuse, and the
/// fragment that carries a call's name must stay apart from those that follow it.
pub fn coalesce(deltas: Vec<UnifiedDelta>) -> (joined: Vec<UnifiedDelta>)
    ensures
        joined.deep_view() == coalesced(deltas.deep_view()),
{
    let mut out: Vec<UnifiedDelta> = Vec::with_capacity(deltas.len());
    let ghost views = deltas.deep_view();
    assert(views.take(0) =~= seq![]);
    assert(out.deep_view() =~= seq![]);
    for delta in it: deltas.into_iter()
        invariant
            it.seq() == deltas@,
            views == deltas.deep_view(),
            out.deep_view() == coalesced(views.take(it.index() as int)),
    {
        let ghost k = it.index() as int;
        proof {
            assert(views[k] == delta.deep_view());
            assert(views.take(k + 1).drop_last() =~= views.take(k));
            assert(views.take(k + 1).last() == views[k]);
        }
        match delta {
            UnifiedDelta::Text { text } => push_text(&mut out, text),
            UnifiedDelta::Reasoning { text } => push_reasoning(&mut out, text),
            UnifiedDelta::ToolCall(call) => {
                let ghost before = out.deep_view();
                out.push(UnifiedDelta::ToolCall(call));
                assert(out.deep_view() =~= join_last(before, DeltaView::ToolCall(call.deep_view())));
            },
        }
    }
    assert(views.take(views.len() as int) =~= views);
    out
}

// --- laws ------------------------------------------------------------------------

/// The smallest thing a delta carries: one character of prose, by its code point, or one
/// call fragment.
pub enum Piece {
    Text(int),
    Reasoning(int),
    Call(CallView),
}

/// The characters of a text, piece by piece.
pub open spec fn text_pieces(text: Seq<char>) -> Seq<Piece> {
    text.map_values(|c: char| Piece::Text(c as int))
}

/// The characters of a stretch of reasoning, piece by piece.
pub open spec fn reasoning_pieces(text: Seq<char>) -> Seq<Piece> {
    text.map_values(|c: char| Piece::Reasoning(c as int))
}

/// What one delta carries, piece by piece.
pub open spec fn delta_pieces(delta: DeltaView) -> Seq<Piece> {
    match delta {
        DeltaView::Text(text) => text_pieces(text),
        DeltaView::Reasoning(text) => reasoning_pieces(text),
        DeltaView::ToolCall(call) => seq![Piece::Call(call)],
    }
}

/// What a run of deltas carries, piece by piece, in the order of the run.
pub open spec fn pieces(deltas: Seq<DeltaView>) -> Seq<Piece>
    decreases deltas.len(),
{
    if deltas.len() == 0 {
        seq![]
    } else {
        pieces(deltas.drop_last()) + delta_pieces(deltas.last())
    }
}

/// Two deltas that would be joined if they stood side by side.
pub open spec fn joinable(left: DeltaView, right: DeltaView) -> bool {
    (left is Text && right is Text) || (left is Reasoning && right is Reasoning)
}

/// A run in which no two neighbours are left to join.
pub open spec fn is_joined(deltas: Seq<DeltaView>) -> bool {
    forall|i: int, j: int|
        0 <= i && j == i + 1 && j < deltas.len() ==> !joinable(
            #[trigger] deltas[i],
            #[trigger] deltas[j],
        )
}

proof fn lemma_join_last(out: Seq<DeltaView>, delta: DeltaView)
    ensures
        pieces(join_last(out, delta)) == pieces(out) + delta_pieces(delta),
        is_joined(out) ==> is_joined(join_last(out, delta)),
{
    let after = join_last(out, delta);
    if after.len() == out.len() + 1 {
        assert(after.drop_last() =~= out);
    } else {
        assert(after.drop_last() =~= out.drop_last());
        match (out.last(), delta) {
            (DeltaView::Text(before), DeltaView::Text(text)) => {
                assert(text_pieces(before + text) =~= text_pieces(before) + text_pieces(
                    text,
                ));
            },
            (DeltaView::Reasoning(before), DeltaView::Reasoning(text)) => {
                assert(reasoning_pieces(before + text) =~= reasoning_pieces(before) + reasoning_pieces(
                    text,
                ));
            },
            _ => {},
        }
        assert(pieces(after) =~= pieces(out) + delta_pieces(delta));
    }
}

/// Coalescing moves nothing and loses nothing: every character of text, every character
/// of reasoning and every call fragment is still there, in the order the model produced
/// them.
pub proof fn law_coalescing_keeps_every_piece_in_order(deltas: Seq<DeltaView>)
    ensures
        pieces(coalesced(deltas)) == pieces(deltas),
    decreases deltas.len(),
{
    if deltas.len() != 0 {
        law_coalescing_keeps_every_piece_in_order(deltas.drop_last());
        lemma_join_last(coalesced(deltas.drop_last()), deltas.last());
    }
}

/// After coalescing, no text stands beside text and no reasoning beside reasoning.
pub proof fn law_coalescing_leaves_nothing_to_join(deltas: Seq<DeltaView>)
    ensures
        is_joined(coalesced(deltas)),
    decreases deltas.len(),
{
    if deltas.len() != 0 {
        law_coalescing_leaves_nothing_to_join(deltas.drop_last());
        lemma_join_last(coalesced(deltas.drop_last()), deltas.last());
    }
}

/// A run with nothing left to join coalesces to itself.
pub proof fn law_coalescing_keeps_a_joined_run(deltas: Seq<DeltaView>)
    requires
        is_joined(deltas),
    ensures
        coalesced(deltas) == deltas,
    decreases deltas.len(),
{
    if deltas.len() != 0 {
        let front = deltas.drop_last();
        assert forall|i: int, j: int| 0 <= i && j == i + 1 && j < front.len() implies !joinable(
            #[trigger] front[i],
            #[trigger] front[j],
        ) by {
            assert(front[i] == deltas[i] && front[j] == deltas[j]);
        }
        law_coalescing_keeps_a_joined_run(front);
        if front.len() != 0 {
            assert(!joinable(deltas[deltas.len() - 2], deltas[deltas.len() - 1]));
        }
        assert(join_last(front, deltas.last()) =~= deltas);
    }
}

/// Coalescing twice is coalescing once.
pub proof fn law_coalescing_is_idempotent(deltas: Seq<DeltaView>)
    ensures
        coalesced(coalesced(deltas)) == coalesced(deltas),
{
    law_coalescing_leaves_nothing_to_join(deltas);
    law_coalescing_keeps_a_joined_run(coalesced(deltas));
}

proof fn lemma_coalesced_ends(deltas: Seq<DeltaView>)
    requires
        deltas.len() > 0,
    ensures
        coalesced(deltas).len() > 0,
        coalesced(deltas).last() is Text <==> deltas.last() is Text,
        coalesced(deltas).last() is Reasoning <==> deltas.last() is Reasoning,
{
}

/// Nothing coalesces to nothing, and one delta to itself, an empty one too.
pub proof fn law_one_delta_stays_as_it_is(delta: DeltaView)
    ensures
        coalesced(seq![]) == Seq::<DeltaView>::empty(),
        coalesced(seq![delta]) == seq![delta],
{
    let one = seq![delta];
    assert(one.drop_last() =~= seq![]);
    reveal_with_fuel(coalesced, 2);
    assert(coalesced(one) =~= one);
}

/// Two runs coalesce each by itself unless text meets text, or reasoning reasoning, where
/// they come together. A call fragment is never joined to anything.
pub proof fn law_runs_that_do_not_meet_coalesce_apart(left: Seq<DeltaView>, right: Seq<DeltaView>)
    requires
        left.len() > 0,
        right.len() > 0,
        !(left.last() is Text && right[0] is Text),
        !(left.last() is Reasoning && right[0] is Reasoning),
    ensures
        coalesced(left + right) == coalesced(left) + coalesced(right),
    decreases right.len(),
{
    let both = left + right;
    let fewer = right.drop_last();
    assert(both.drop_last() =~= left + fewer);
    assert(both.last() == right.last());
    lemma_coalesced_ends(left);
    if fewer.len() == 0 {
        assert(left + fewer =~= left);
        law_one_delta_stays_as_it_is(right[0]);
        assert(right =~= seq![right[0]]);
        assert(coalesced(both) =~= coalesced(left) + coalesced(right));
    } else {
        law_runs_that_do_not_meet_coalesce_apart(left, fewer);
        lemma_coalesced_ends(fewer);
        assert((coalesced(left) + coalesced(fewer)).last() == coalesced(fewer).last());
        assert(coalesced(both) =~= coalesced(left) + coalesced(right));
    }
}

/// Where text meets text, or reasoning reasoning, the two are as good as one that holds
/// both, the earlier first.
pub proof fn law_what_meets_is_joined(
    before: Seq<DeltaView>,
    earlier: Seq<char>,
    later: Seq<char>,
)
    ensures
        coalesced(before.push(DeltaView::Text(earlier)).push(DeltaView::Text(later))) == coalesced(
            before.push(DeltaView::Text(earlier + later)),
        ),
        coalesced(before.push(DeltaView::Reasoning(earlier)).push(DeltaView::Reasoning(later)))
            == coalesced(before.push(DeltaView::Reasoning(earlier + later))),
{
    lemma_two_meet(before, DeltaView::Text(earlier), DeltaView::Text(later));
    lemma_two_meet(before, DeltaView::Reasoning(earlier), DeltaView::Reasoning(later));
    let out = coalesced(before);
    assert(before.push(DeltaView::Text(earlier + later)).drop_last() =~= before);
    assert(before.push(DeltaView::Reasoning(earlier + later)).drop_last() =~= before);
    assert(join_last(join_last(out, DeltaView::Text(earlier)), DeltaView::Text(later))
        =~= join_last(out, DeltaView::Text(earlier + later))) by {
        if out.len() > 0 && out.last() is Text {
            let first = out.last()->Text_0;
            assert(first + earlier + later =~= first + (earlier + later));
        }
    }
    assert(join_last(join_last(out, DeltaView::Reasoning(earlier)), DeltaView::Reasoning(later))
        =~= join_last(out, DeltaView::Reasoning(earlier + later))) by {
        if out.len() > 0 && out.last() is Reasoning {
            let first = out.last()->Reasoning_0;
            assert(first + earlier + later =~= first + (earlier + later));
        }
    }
}

proof fn lemma_two_meet(before: Seq<DeltaView>, earlier: DeltaView, later: DeltaView)
    ensures
        coalesced(before.push(earlier).push(later)) == join_last(
            join_last(coalesced(before), earlier),
            later,
        ),
{
    let one = before.push(earlier);
    let two = one.push(later);
    assert(two.drop_last() =~= one);
    assert(one.drop_last() =~= before);
    assert(coalesced(one) == join_last(coalesced(before), earlier));
    assert(coalesced(two) == join_last(coalesced(one), later));
}

/// Text makes one delta that holds all of it, and no text makes none.
pub proof fn law_text_makes_one_delta(text: Seq<char>)
    ensures
        text.len() == 0 <==> text_deltas(text).len() == 0,
        text.len() > 0 ==> text_deltas(text).len() == 1 && text_deltas(text)[0] is Text
            && text_deltas(text)[0]->Text_0 == text,
{
}

} // verus!
