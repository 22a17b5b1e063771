//! A whole response stream: one parser for each choice, in place of separate parsers for
//! reasoning and tool calls.
//!
//! A choice's delta carries content, reasoning and tool calls side by side and cannot say
//! which came first. So every delta of the parser becomes a chunk of its own, and the
//! order in which the model produced them is the order of the chunks.

use std::collections::{HashMap, HashSet};

use vstd::prelude::*;

use super::choice::{
    is_chunk_step, is_end_step, is_refused_set_up, no_progress, ChoiceState, Slot,
};
use super::outside::{refusal, ParserExchange};
use super::request::{already_parsed, is_already_parsed, output_mode, stream_mode};
use super::types::{
    ChatChoiceStream, ChoiceView, ModeView, Tool, ToolChoice, ToolView, UnifiedParserPrefill,
};
use super::UnifiedParserError;

verus! {

// --- what a stream does ----------------------------------------------------------

/// What a stream hands to the parser of every choice.
pub struct SettingsView {
    pub family: Seq<char>,
    pub tools: Seq<ToolView>,
    pub prefill: UnifiedParserPrefill,
    pub mode: ModeView,
}

/// Where a stream stands: its choices by index, the choices that have been terminated,
/// and the refusals to set up a parser that have not been handed out.
#[verifier::ext_equal]
pub struct StreamView {
    pub slots: Map<u32, Slot>,
    pub finished: Set<u32>,
    pub refusals: Seq<ParserFailure>,
}

/// A stream that has seen nothing.
pub open spec fn new_stream() -> StreamView {
    StreamView { slots: Map::empty(), finished: Set::empty(), refusals: seq![] }
}

/// A choice whose parser has just been set up.
pub open spec fn fresh_slot(settings: SettingsView) -> Slot {
    Slot {
        progress: no_progress(),
        calls: seq![
            ParserExchange::Created { family: settings.family, tools: settings.tools },
            ParserExchange::Initialized {
                prefill: settings.prefill,
                mode: settings.mode,
                accepted: true,
            },
        ],
        failure: None,
    }
}

/// This is the error with which the set-up of a parser for the stream was refused.
pub open spec fn is_set_up_refusal(settings: SettingsView, error: UnifiedParserError) -> bool {
    error matches UnifiedParserError::Parser(cause) && is_refused_set_up(
        settings.family,
        settings.tools,
        settings.prefill,
        settings.mode,
        refusal(cause),
    )
}

/// The terminated choices once `choice` has been seen too.
pub open spec fn finished_with(finished: Set<u32>, choice: ChoiceView) -> Set<u32> {
    if choice.finish_reason is Some {
        finished.insert(choice.index)
    } else {
        finished
    }
}

/// The choice of `original` goes on from `slot`: the chunk ends it when it carries a
/// terminating reason and none has been seen before.
pub open spec fn is_parsed_step(
    slot: Slot,
    before: StreamView,
    original: ChoiceView,
    after: StreamView,
    out: Seq<ChoiceView>,
) -> bool {
    let index = original.index;
    let ends = original.finish_reason is Some && !before.finished.contains(index);
    &&& after.slots == before.slots.insert(index, after.slots[index])
    &&& after.finished == finished_with(before.finished, original)
    &&& after.refusals == before.refusals
    &&& is_chunk_step(slot, original, ends, after.slots[index], out)
}

/// The set-up of a parser for the choice of `original` is refused: the chunk passes as it
/// is, and the refusal is kept.
pub open spec fn is_refused_step(
    settings: SettingsView,
    before: StreamView,
    original: ChoiceView,
    after: StreamView,
    out: Seq<ChoiceView>,
) -> bool {
    let kept = after.refusals.last();
    &&& out == seq![original]
    &&& after.slots == before.slots
    &&& after.finished == before.finished
    &&& after.refusals == before.refusals.push(kept)
    &&& kept.choice == original.index
    &&& is_set_up_refusal(settings, kept.error)
}

/// One choice of an upstream chunk takes the stream from `before` to `after` and becomes
/// `out`. What is parsed already passes untouched, and so does a choice whose parser
/// cannot be set up.
pub open spec fn is_choice_step(
    settings: SettingsView,
    before: StreamView,
    original: ChoiceView,
    after: StreamView,
    out: Seq<ChoiceView>,
) -> bool {
    if is_already_parsed(original) {
        &&& out == seq![original]
        &&& after.slots == before.slots
        &&& after.finished == finished_with(before.finished, original)
        &&& after.refusals == before.refusals
    } else if before.slots.contains_key(original.index) {
        is_parsed_step(before.slots[original.index], before, original, after, out)
    } else {
        ||| is_refused_step(settings, before, original, after, out)
        ||| is_parsed_step(fresh_slot(settings), before, original, after, out)
    }
}

/// `out` is `front`, then `last`.
pub open spec fn is_followed_by(
    out: Seq<ChoiceView>,
    front: Seq<ChoiceView>,
    last: Seq<ChoiceView>,
) -> bool {
    out == front + last
}

/// The choices of an upstream chunk, one after the other, take the stream from `before`
/// to `after` and become `out`.
pub open spec fn is_choices_run(
    settings: SettingsView,
    before: StreamView,
    originals: Seq<ChoiceView>,
    after: StreamView,
    out: Seq<ChoiceView>,
) -> bool
    decreases originals.len(),
{
    if originals.len() == 0 {
        after == before && out == Seq::<ChoiceView>::empty()
    } else {
        exists|middle: StreamView, front: Seq<ChoiceView>, last: Seq<ChoiceView>|
            {
                &&& is_choices_run(settings, before, originals.drop_last(), middle, front)
                &&& #[trigger] is_choice_step(settings, middle, originals.last(), after, last)
                &&& #[trigger] is_followed_by(out, front, last)
            }
    }
}

/// Numbers in strictly ascending order.
pub open spec fn is_ascending(order: Seq<u32>) -> bool {
    forall|i: int, j: int| 0 <= i < j < order.len() ==> order[i] < order[j]
}

/// `order` lists the choices that have not been terminated, in index order.
pub open spec fn is_pending(stream: StreamView, order: Seq<u32>) -> bool {
    &&& is_ascending(order)
    &&& forall|index: u32| #[trigger]
        order.contains(index) <==> stream.slots.contains_key(index) && !stream.finished.contains(
            index,
        )
}

/// The end of one choice takes the stream from `before` to `after` and becomes `out`.
pub open spec fn is_flush_step(
    before: StreamView,
    index: u32,
    after: StreamView,
    out: Seq<ChoiceView>,
) -> bool {
    &&& before.slots.contains_key(index)
    &&& after.slots == before.slots.insert(index, after.slots[index])
    &&& after.finished == before.finished.insert(index)
    &&& after.refusals == before.refusals
    &&& is_end_step(before.slots[index], index, after.slots[index], out)
}

/// The end of the choices `order`, one after the other, takes the stream from `before` to
/// `after` and becomes `out`.
pub open spec fn is_flush_run(
    before: StreamView,
    order: Seq<u32>,
    after: StreamView,
    out: Seq<ChoiceView>,
) -> bool
    decreases order.len(),
{
    if order.len() == 0 {
        after == before && out == Seq::<ChoiceView>::empty()
    } else {
        exists|middle: StreamView, front: Seq<ChoiceView>, last: Seq<ChoiceView>|
            {
                &&& is_flush_run(before, order.drop_last(), middle, front)
                &&& #[trigger] is_flush_step(middle, order.last(), after, last)
                &&& #[trigger] is_followed_by(out, front, last)
            }
    }
}

/// The end of every choice that has not been terminated, in index order, takes the stream
/// from `before` to `after` and becomes `out`.
pub open spec fn is_flush(before: StreamView, after: StreamView, out: Seq<ChoiceView>) -> bool {
    exists|order: Seq<u32>| #[trigger]
        is_pending(before, order) && is_flush_run(before, order, after, out)
}

/// `order` lists all choices of the stream, in index order.
pub open spec fn is_listing(stream: StreamView, order: Seq<u32>) -> bool {
    &&& is_ascending(order)
    &&& forall|index: u32| #[trigger]
        order.contains(index) <==> stream.slots.contains_key(index)
}

/// The errors that the choices `order` keep, in that order.
pub open spec fn kept_failures(stream: StreamView, order: Seq<u32>) -> Seq<ParserFailure>
    decreases order.len(),
{
    if order.len() == 0 {
        seq![]
    } else {
        let fewer = kept_failures(stream, order.drop_last());
        match stream.slots[order.last()].failure {
            Some(error) => fewer.push(
                ParserFailure { choice: order.last(), error: UnifiedParserError::Parser(error) },
            ),
            None => fewer,
        }
    }
}

/// The stream once all its errors have been handed out.
pub open spec fn without_failures(stream: StreamView) -> StreamView {
    StreamView {
        slots: stream.slots.map_values(|slot: Slot| Slot { failure: None, ..slot }),
        finished: stream.finished,
        refusals: seq![],
    }
}

// --- the stream ------------------------------------------------------------------

/// A failure that the client does not see: the parser of a choice could not be set up, or
/// it refused a chunk or the end, and the choice went on as plain text.
#[derive(Debug)]
pub struct ParserFailure {
    pub choice: u32,
    pub error: UnifiedParserError,
}

/// The state of one response stream. `E` is what all responses of the stream have in
/// common (identifier, model, creation time).
pub struct UnifiedStream<E> {
    family: String,
    tools: Vec<Tool>,
    tool_choice: Option<ToolChoice>,
    uses_tool_call_structural_tag: bool,
    prefill: UnifiedParserPrefill,
    states: HashMap<u32, ChoiceState>,
    finished: HashSet<u32>,
    /// The refusals to set up a parser, until they have been handed out.
    refusals: Vec<ParserFailure>,
    /// The envelope of the last data response, for what the end of the stream still has
    /// to send.
    template: Option<E>,
}

/// One data response of a stream.
#[derive(Debug)]
pub struct StreamResponse<E, M> {
    /// What all responses of the stream have in common.
    pub envelope: E,
    pub choices: Vec<ChatChoiceStream>,
    /// Usage and metrics. They belong to the upstream response that carried them.
    pub accounting: Option<M>,
}

/// One item of a stream: data, with an annotation or without, or an annotation alone.
#[derive(Debug)]
pub struct Annotated<E, M, A> {
    pub data: Option<StreamResponse<E, M>>,
    /// Identifier, event, comment and error of the item.
    pub annotation: Option<A>,
}

/// `response` delivers exactly this choice, accounting and annotation, in a copy of
/// `envelope`.
pub open spec fn is_delivery<E: Clone, M, A>(
    response: Annotated<E, M, A>,
    envelope: E,
    choice: ChoiceView,
    accounting: Option<M>,
    annotation: Option<A>,
) -> bool {
    &&& response.data matches Some(data) && {
        &&& cloned(envelope, data.envelope)
        &&& data.choices.deep_view() == seq![choice]
        &&& data.accounting == accounting
    }
    &&& response.annotation == annotation
}

/// `responses` deliver the choices one by one, with no accounting and no annotation.
pub open spec fn are_bare_deliveries<E: Clone, M, A>(
    responses: Seq<Annotated<E, M, A>>,
    envelope: E,
    choices: Seq<ChoiceView>,
) -> bool {
    &&& responses.len() == choices.len()
    &&& forall|k: int|
        0 <= k < choices.len() ==> is_delivery(
            #[trigger] responses[k],
            envelope,
            choices[k],
            None,
            None,
        )
}

/// `responses` deliver the choices one by one. Only the last carries the accounting and
/// the annotation, so that nothing is counted or reported twice.
pub open spec fn are_deliveries<E: Clone, M, A>(
    responses: Seq<Annotated<E, M, A>>,
    envelope: E,
    choices: Seq<ChoiceView>,
    accounting: Option<M>,
    annotation: Option<A>,
) -> bool {
    &&& responses.len() == choices.len()
    &&& forall|k: int|
        0 <= k < choices.len() ==> is_delivery(
            #[trigger] responses[k],
            envelope,
            choices[k],
            if k + 1 == choices.len() {
                accounting
            } else {
                None
            },
            if k + 1 == choices.len() {
                annotation
            } else {
                None
            },
        )
}

/// Wraps one choice into a response built from `template`. There is no accounting on it:
/// that belongs to the response that carried it, and would be counted twice.
pub fn response_with_choice<E: Clone, M, A>(template: &E, choice: ChatChoiceStream) -> (response:
    Annotated<E, M, A>)
    ensures
        is_delivery(response, *template, choice.deep_view(), None, None),
{
    let ghost view = choice.deep_view();
    let envelope: E = template.clone();
    let mut choices: Vec<ChatChoiceStream> = Vec::new();
    choices.push(choice);
    assert(choices.deep_view() =~= seq![view]);
    Annotated {
        data: Some(StreamResponse { envelope, choices, accounting: None }),
        annotation: None,
    }
}

/// Wraps each choice into a response built from `template`.
fn bare_responses<E: Clone, M, A>(template: &E, choices: Vec<ChatChoiceStream>) -> (responses: Vec<
    Annotated<E, M, A>,
>)
    ensures
        are_bare_deliveries(responses@, *template, choices.deep_view()),
{
    let mut responses: Vec<Annotated<E, M, A>> = Vec::new();
    let ghost views = choices.deep_view();
    for choice in it: choices.into_iter()
        invariant
            it.seq() == choices@,
            views == choices.deep_view(),
            responses@.len() == it.index(),
            forall|k: int|
                0 <= k < it.index() ==> is_delivery(
                    #[trigger] responses@[k],
                    *template,
                    views[k],
                    None,
                    None,
                ),
    {
        assert(views[it.index() as int] == choice.deep_view());
        responses.push(response_with_choice(template, choice));
    }
    responses
}

/// Spreads the choices of one upstream response over a response each.
fn fan_out<E: Clone, M, A>(
    envelope: &E,
    choices: Vec<ChatChoiceStream>,
    accounting: Option<M>,
    annotation: Option<A>,
) -> (responses: Vec<Annotated<E, M, A>>)
    ensures
        are_deliveries(responses@, *envelope, choices.deep_view(), accounting, annotation),
{
    let ghost count = choices@.len();
    let mut responses: Vec<Annotated<E, M, A>> = bare_responses(envelope, choices);
    let last: Option<Annotated<E, M, A>> = responses.pop();
    if let Some(bare) = last {
        let mut data = bare.data;
        if let Some(response) = data {
            data = Some(
                StreamResponse {
                    envelope: response.envelope,
                    choices: response.choices,
                    accounting,
                },
            );
        }
        responses.push(Annotated { data, annotation });
    }
    responses
}

/// The choices of a stream as it sees them.
spec fn slots_of(states: Map<u32, ChoiceState>) -> Map<u32, Slot> {
    Map::new(|index: u32| states.contains_key(index), |index: u32| states[index].slot())
}

impl<E> UnifiedStream<E> {
    /// What this stream hands to the parser of every choice.
    pub closed spec fn settings(&self) -> SettingsView {
        SettingsView {
            family: self.family@,
            tools: self.tools.deep_view(),
            prefill: self.prefill,
            mode: stream_mode(self.tool_choice, self.uses_tool_call_structural_tag),
        }
    }

    /// The envelope of the last data response.
    pub closed spec fn envelope(&self) -> Option<E> {
        self.template
    }

    /// Every choice has recorded its tool calls.
    pub closed spec fn wf(&self) -> bool {
        forall|index: u32| #[trigger]
            self.states@.contains_key(index) ==> self.states@[index].wf()
    }

    /// A stream that has seen nothing.
    ///
    /// With `uses_tool_call_structural_tag`, the backend was given a tag that holds
    /// generation to the family's own grammar, so `tool_choice` is not consulted.
    pub fn new(
        family: &str,
        tools: Vec<Tool>,
        tool_choice: Option<ToolChoice>,
        uses_tool_call_structural_tag: bool,
        prefill: UnifiedParserPrefill,
    ) -> (stream: UnifiedStream<E>)
        ensures
            stream.wf(),
            stream.settings() == (SettingsView {
                family: family@,
                tools: tools.deep_view(),
                prefill,
                mode: stream_mode(tool_choice, uses_tool_call_structural_tag),
            }),
            stream.view() == new_stream(),
            stream.envelope() is None,
    {
        let stream = UnifiedStream {
            family: family.to_owned(),
            tools,
            tool_choice,
            uses_tool_call_structural_tag,
            prefill,
            states: HashMap::new(),
            finished: HashSet::new(),
            refusals: Vec::new(),
            template: None,
        };
        assert(slots_of(stream.states@) =~= Map::empty());
        stream
    }

    /// Lets the choice of `original` go on from `state`.
    fn go_on(&mut self, state: ChoiceState, original: &ChatChoiceStream) -> (choices: Vec<
        ChatChoiceStream,
    >)
        ensures
            is_parsed_step(
                state.slot(),
                old(self).view(),
                original.deep_view(),
                final(self).view(),
                choices.deep_view(),
            ),
            choices@.len() > 0,
            final(self).settings() == old(self).settings(),
            final(self).envelope() == old(self).envelope(),
            old(self).wf() && state.wf() ==> final(self).wf(),
    {
        let ghost before = self.view();
        let mut state = state;
        let index: u32 = original.index;
        let terminal: bool = original.finish_reason.is_some();
        let ends: bool = terminal && self.finished.insert(index);
        let choices = state.take_chunk(original, ends);
        let ghost after_slot = state.slot();
        self.states.insert(index, state);
        proof {
            assert(self.view().slots =~= before.slots.insert(index, after_slot));
            assert(self.view().finished =~= finished_with(before.finished, original.deep_view()));
        }
        choices
    }

    /// Takes the first chunk of a choice, given what came of setting up its parser. When
    /// that was refused, the chunk passes as it is and the error is kept.
    pub fn open_choice(
        &mut self,
        created: Result<ChoiceState, UnifiedParserError>,
        original: ChatChoiceStream,
    ) -> (choices: Vec<ChatChoiceStream>)
        ensures
            match created {
                Ok(state) => is_parsed_step(
                    state.slot(),
                    old(self).view(),
                    original.deep_view(),
                    final(self).view(),
                    choices.deep_view(),
                ),
                Err(error) => {
                    &&& choices.deep_view() == seq![original.deep_view()]
                    &&& final(self).view() == (StreamView {
                        refusals: old(self).view().refusals.push(
                            ParserFailure { choice: original.index, error },
                        ),
                        ..old(self).view()
                    })
                },
            },
            choices@.len() > 0,
            final(self).settings() == old(self).settings(),
            final(self).envelope() == old(self).envelope(),
            old(self).wf() && (created matches Ok(state) ==> state.wf()) ==> final(self).wf(),
    {
        match created {
            Ok(state) => self.go_on(state, &original),
            Err(error) => {
                let ghost from = original.deep_view();
                self.refusals.push(ParserFailure { choice: original.index, error });
                let mut choices: Vec<ChatChoiceStream> = Vec::new();
                choices.push(original);
                assert(choices.deep_view() =~= seq![from]);
                choices
            },
        }
    }

    /// Rewrites one choice of an upstream chunk.
    fn rewrite_choice(&mut self, original: ChatChoiceStream) -> (choices: Vec<ChatChoiceStream>)
        ensures
            is_choice_step(
                old(self).settings(),
                old(self).view(),
                original.deep_view(),
                final(self).view(),
                choices.deep_view(),
            ),
            choices@.len() > 0,
            final(self).settings() == old(self).settings(),
            final(self).envelope() == old(self).envelope(),
            old(self).wf() ==> final(self).wf(),
    {
        let ghost from = original.deep_view();
        let ghost before = self.view();
        let index: u32 = original.index;
        if already_parsed(&original) {
            if original.finish_reason.is_some() {
                self.finished.insert(index);
            }
            let mut choices: Vec<ChatChoiceStream> = Vec::new();
            choices.push(original);
            assert(choices.deep_view() =~= seq![from]);
            assert(self.view().finished =~= finished_with(before.finished, from));
            return choices;
        }
        let ghost states = self.states@;
        match self.states.remove(&index) {
            Some(state) => {
                let ghost slot = state.slot();
                let ghost without = self.view();
                assert(before.slots[index] == slot);
                let choices = self.go_on(state, &original);
                assert(without.slots.insert(index, self.view().slots[index])
                    =~= before.slots.insert(index, self.view().slots[index]));
                choices
            },
            None => {
                assert(self.states@ =~= states);
                let mode = output_mode(
                    self.tool_choice.as_ref(),
                    self.uses_tool_call_structural_tag,
                );
                let created = ChoiceState::new(
                    self.family.as_str(),
                    &self.tools,
                    self.prefill,
                    mode,
                );
                assert(created matches Ok(state) ==> state.slot() =~= fresh_slot(self.settings()));
                self.open_choice(created, original)
            },
        }
    }

    /// Rewrites the choices of an upstream chunk, one after the other.
    fn rewrite_choices(&mut self, originals: Vec<ChatChoiceStream>) -> (choices: Vec<
        ChatChoiceStream,
    >)
        ensures
            is_choices_run(
                old(self).settings(),
                old(self).view(),
                originals.deep_view(),
                final(self).view(),
                choices.deep_view(),
            ),
            choices@.len() >= originals@.len(),
            final(self).settings() == old(self).settings(),
            final(self).envelope() == old(self).envelope(),
            old(self).wf() ==> final(self).wf(),
    {
        let ghost settings = self.settings();
        let ghost before = self.view();
        let ghost from = originals.deep_view();
        let mut emitted: Vec<ChatChoiceStream> = Vec::new();
        assert(emitted.deep_view() =~= seq![]);
        assert(from.take(0) =~= seq![]);
        for original in it: originals.into_iter()
            invariant
                it.seq() == originals@,
                from == originals.deep_view(),
                before == old(self).view(),
                self.settings() == settings,
                self.envelope() == old(self).envelope(),
                old(self).wf() ==> self.wf(),
                emitted@.len() >= it.index(),
                is_choices_run(
                    settings,
                    before,
                    from.take(it.index() as int),
                    self.view(),
                    emitted.deep_view(),
                ),
        {
            let ghost k = it.index() as int;
            let ghost middle = self.view();
            let ghost front = emitted.deep_view();
            assert(from[k] == original.deep_view());
            let mut choices = self.rewrite_choice(original);
            let ghost last = choices.deep_view();
            emitted.append(&mut choices);
            proof {
                assert(emitted.deep_view() =~= front + last);
                assert(is_followed_by(emitted.deep_view(), front, last));
                assert(from.take(k + 1).drop_last() =~= from.take(k));
                assert(from.take(k + 1).last() == from[k]);
                assert(is_choice_step(
                    settings,
                    middle,
                    from.take(k + 1).last(),
                    self.view(),
                    last,
                ));
            }
        }
        assert(from.take(from.len() as int) =~= from);
        emitted
    }

    /// All choices, in index order.
    fn all_choices(&self) -> (order: Vec<u32>)
        ensures
            is_listing(self.view(), order@),
    {
        let mut order: Vec<u32> = Vec::new();
        let ghost states = self.states@;
        for index in it: self.states.keys()
            invariant
                states == self.states@,
                it.seq().unref().to_set() == states.dom(),
                it.seq().unref().no_duplicates(),
                is_ascending(order@),
                forall|i: u32| #[trigger]
                    order@.contains(i) <==> it.seq().unref().take(it.index() as int).contains(i),
                it.index() == it.seq().len() ==> forall|i: u32| #[trigger]
                    order@.contains(i) <==> states.contains_key(i),
        {
            let ghost keys = it.seq().unref();
            let ghost k = it.index() as int;
            let ghost before = order@;
            proof {
                assert(keys[k] == *index);
                lemma_take_one_more(keys, k);
                assert(!order@.contains(*index)) by {
                    if keys.take(k).contains(*index) {
                        let j = choose|j: int| 0 <= j < k && keys.take(k)[j] == *index;
                        assert(keys[j] == keys[k]);
                    }
                }
            }
            insert_ascending(&mut order, *index);
            assert forall|i: u32| #[trigger]
                order@.contains(i) <==> keys.take(k + 1).contains(i) by {
                assert(keys.take(k + 1).contains(i) <==> keys.take(k).contains(i) || i == *index);
                assert(before.contains(i) <==> keys.take(k).contains(i));
            }
            assert(k + 1 == keys.len() ==> keys.take(k + 1) =~= keys);
            assert forall|i: u32| states.contains_key(i) <==> #[trigger] keys.contains(i) by {
                assert(keys.to_set().contains(i) <==> states.dom().contains(i));
            }
        }
        order
    }

    /// The choices that have not been terminated, in index order.
    fn pending_choices(&self) -> (order: Vec<u32>)
        ensures
            is_pending(self.view(), order@),
    {
        let all = self.all_choices();
        let mut order: Vec<u32> = Vec::new();
        let mut k: usize = 0;
        while k < all.len()
            invariant
                k <= all@.len(),
                is_ascending(all@),
                is_ascending(order@),
                forall|j: int, i: int|
                    0 <= j < order@.len() && k <= i < all@.len() ==> order@[j] < all@[i],
                forall|i: u32| #[trigger]
                    order@.contains(i) <==> all@.take(k as int).contains(i)
                        && !self.finished@.contains(i),
            decreases all@.len() - k,
        {
            let index: u32 = all[k];
            let ghost before = order@;
            proof {
                lemma_take_one_more(all@, k as int);
            }
            if !self.finished.contains(&index) {
                order.push(index);
                proof {
                    lemma_push_one_more(before, index);
                }
            }
            k = k + 1;
        }
        assert(all@.take(all@.len() as int) =~= all@);
        order
    }
}

proof fn lemma_push_one_more(order: Seq<u32>, index: u32)
    ensures
        forall|i: u32| #[trigger] order.push(index).contains(i) <==> order.contains(i) || i == index,
{
    let more = order.push(index);
    assert(more.take(order.len() as int) =~= order);
    assert(more.take(order.len() as int + 1) =~= more);
    lemma_take_one_more(more, order.len() as int);
}

proof fn lemma_take_one_more(keys: Seq<u32>, k: int)
    requires
        0 <= k < keys.len(),
    ensures
        forall|i: u32| #[trigger]
            keys.take(k + 1).contains(i) <==> keys.take(k).contains(i) || i == keys[k],
{
    let less = keys.take(k);
    let more = keys.take(k + 1);
    assert forall|i: u32| #[trigger] more.contains(i) <==> less.contains(i) || i == keys[k] by {
        if less.contains(i) {
            let j = choose|j: int| 0 <= j < less.len() && less[j] == i;
            assert(more[j] == i);
        }
        if i == keys[k] {
            assert(more[k] == i);
        }
        if more.contains(i) && i != keys[k] {
            let j = choose|j: int| 0 <= j < more.len() && more[j] == i;
            assert(less[j] == i);
        }
    }
}

impl<E> UnifiedStream<E> {
    /// Finishes every choice that no chunk has terminated, in index order.
    pub fn finish_unterminated_choices(&mut self) -> (choices: Vec<ChatChoiceStream>)
        ensures
            is_flush(old(self).view(), final(self).view(), choices.deep_view()),
            final(self).settings() == old(self).settings(),
            final(self).envelope() == old(self).envelope(),
            old(self).wf() ==> final(self).wf(),
    {
        let ghost before = self.view();
        let order = self.pending_choices();
        let ghost all = order@;
        let mut choices: Vec<ChatChoiceStream> = Vec::new();
        assert(choices.deep_view() =~= seq![]);
        let mut k: usize = 0;
        while k < order.len()
            invariant
                order@ == all,
                k <= all.len(),
                before == old(self).view(),
                is_pending(before, all),
                self.view().slots.dom() == before.slots.dom(),
                self.settings() == old(self).settings(),
                self.envelope() == old(self).envelope(),
                old(self).wf() ==> self.wf(),
                is_flush_run(before, all.take(k as int), self.view(), choices.deep_view()),
            decreases all.len() - k,
        {
            let index: u32 = order[k];
            let ghost middle = self.view();
            let ghost front = choices.deep_view();
            assert(all.contains(index));
            assert(middle.slots.dom().contains(index));
            self.finished.insert(index);
            if let Some(known) = self.states.remove(&index) {
                let mut state = known;
                let ghost slot = state.slot();
                let mut ended = state.take_end(index);
                let ghost last = ended.deep_view();
                let ghost after_slot = state.slot();
                choices.append(&mut ended);
                self.states.insert(index, state);
                proof {
                    assert(middle.slots[index] == slot);
                    assert(self.view().slots =~= middle.slots.insert(index, after_slot));
                    assert(self.view().slots.dom() =~= before.slots.dom());
                    assert(choices.deep_view() =~= front + last);
                    assert(is_followed_by(choices.deep_view(), front, last));
                    let more = all.take(k + 1);
                    assert(more.drop_last() =~= all.take(k as int));
                    assert(more.last() == index);
                    assert(is_flush_step(middle, more.last(), self.view(), last));
                }
            }
            k = k + 1;
        }
        assert(all.take(all.len() as int) =~= all);
        choices
    }
}

impl<E> UnifiedStream<E> {
    /// Hands out the failures that the client does not see, each once: the refusals to set
    /// up a parser, then those of the parsers that have been given up, in index order.
    pub fn take_failures(&mut self) -> (failures: Vec<ParserFailure>)
        ensures
            exists|order: Seq<u32>| #[trigger]
                is_listing(old(self).view(), order) && failures@ == old(self).view().refusals
                    + kept_failures(old(self).view(), order),
            final(self).view() == without_failures(old(self).view()),
            final(self).settings() == old(self).settings(),
            final(self).envelope() == old(self).envelope(),
            old(self).wf() ==> final(self).wf(),
    {
        let ghost before = self.view();
        let order = self.all_choices();
        let ghost all = order@;
        let mut failures: Vec<ParserFailure> = Vec::new();
        std::mem::swap(&mut failures, &mut self.refusals);
        assert(failures@ =~= before.refusals + kept_failures(before, all.take(0)));
        let mut k: usize = 0;
        while k < order.len()
            invariant
                order@ == all,
                k <= all.len(),
                is_listing(before, all),
                before == old(self).view(),
                self.settings() == old(self).settings(),
                self.envelope() == old(self).envelope(),
                old(self).wf() ==> self.wf(),
                self.view().finished == before.finished,
                self.view().refusals == Seq::<ParserFailure>::empty(),
                self.view().slots.dom() == before.slots.dom(),
                forall|i: u32| #[trigger]
                    before.slots.contains_key(i) ==> self.view().slots[i] == if all.take(
                        k as int,
                    ).contains(i) {
                        Slot { failure: None, ..before.slots[i] }
                    } else {
                        before.slots[i]
                    },
                failures@ == before.refusals + kept_failures(before, all.take(k as int)),
            decreases all.len() - k,
        {
            let index: u32 = order[k];
            let ghost middle = self.view();
            let ghost front = failures@;
            proof {
                assert(all.contains(index));
                assert(middle.slots.dom().contains(index));
                lemma_take_one_more(all, k as int);
                assert(!all.take(k as int).contains(index)) by {
                    if all.take(k as int).contains(index) {
                        let j = choose|j: int| 0 <= j < k && all.take(k as int)[j] == index;
                        assert(all[j] < all[k as int]);
                    }
                }
                let more = all.take(k + 1);
                assert(more.drop_last() =~= all.take(k as int));
                assert(more.last() == index);
            }
            if let Some(known) = self.states.remove(&index) {
                let mut state = known;
                assert(state.slot() == middle.slots[index]);
                if let Some(error) = state.take_failure() {
                    failures.push(
                        ParserFailure { choice: index, error: UnifiedParserError::Parser(error) },
                    );
                }
                let ghost slot = state.slot();
                self.states.insert(index, state);
                proof {
                    assert(self.view().slots =~= middle.slots.insert(index, slot));
                    assert(self.view().slots.dom() =~= before.slots.dom());
                    assert(failures@ =~= before.refusals + kept_failures(before, all.take(k + 1)));
                }
            }
            k = k + 1;
        }
        proof {
            assert(all.take(all.len() as int) =~= all);
            assert forall|i: u32| before.slots.contains_key(i) implies #[trigger] self.view().slots[i]
                == (Slot { failure: None, ..before.slots[i] }) by {
                assert(all.contains(i));
            }
            assert(self.view().slots =~= without_failures(before).slots);
        }
        failures
    }
}

impl<E: Clone> UnifiedStream<E> {
    /// Takes one upstream response and gives the responses that go to the client for it.
    ///
    /// An item without data passes untouched. A response without choices carries usage,
    /// which must come after the end of every choice, so the choices that are still open
    /// are finished first. Any other response becomes one for each choice that its
    /// choices are rewritten to.
    pub fn on_response<M, A>(&mut self, response: Annotated<E, M, A>) -> (out: Vec<
        Annotated<E, M, A>,
    >)
        ensures
            match response.data {
                None => {
                    &&& out@ == seq![response]
                    &&& final(self).view() == old(self).view()
                    &&& final(self).envelope() == old(self).envelope()
                },
                Some(data) => {
                    &&& final(self).envelope() matches Some(kept) && cloned(data.envelope, kept)
                    &&& if data.choices@.len() == 0 {
                        exists|flushed: Seq<ChoiceView>|
                            {
                                &&& #[trigger] is_flush(
                                    old(self).view(),
                                    final(self).view(),
                                    flushed,
                                )
                                &&& out@.len() > 0
                                &&& out@.last() == response
                                &&& are_bare_deliveries(
                                    out@.drop_last(),
                                    final(self).envelope()->0,
                                    flushed,
                                )
                            }
                    } else {
                        exists|emitted: Seq<ChoiceView>|
                            {
                                &&& #[trigger] is_choices_run(
                                    old(self).settings(),
                                    old(self).view(),
                                    data.choices.deep_view(),
                                    final(self).view(),
                                    emitted,
                                )
                                &&& emitted.len() > 0
                                &&& are_deliveries(
                                    out@,
                                    data.envelope,
                                    emitted,
                                    data.accounting,
                                    response.annotation,
                                )
                            }
                    }
                },
            },
            final(self).settings() == old(self).settings(),
            old(self).wf() ==> final(self).wf(),
    {
        let Annotated { data, annotation } = response;
        match data {
            None => {
                let mut out: Vec<Annotated<E, M, A>> = Vec::new();
                out.push(Annotated { data: None, annotation });
                assert(out@ =~= seq![response]);
                out
            },
            Some(chat) => {
                let template: E = chat.envelope.clone();
                if chat.choices.len() == 0 {
                    let flushed = self.finish_unterminated_choices();
                    let ghost views = flushed.deep_view();
                    let mut out: Vec<Annotated<E, M, A>> = bare_responses(&template, flushed);
                    let ghost bare = out@;
                    self.template = Some(template);
                    out.push(Annotated { data: Some(chat), annotation });
                    proof {
                        assert(out@.drop_last() =~= bare);
                        assert(is_flush(old(self).view(), self.view(), views));
                    }
                    out
                } else {
                    self.template = Some(template);
                    let StreamResponse { envelope, choices, accounting } = chat;
                    let emitted = self.rewrite_choices(choices);
                    let ghost views = emitted.deep_view();
                    let out = fan_out(&envelope, emitted, accounting, annotation);
                    assert(is_choices_run(
                        old(self).settings(),
                        old(self).view(),
                        choices.deep_view(),
                        self.view(),
                        views,
                    ));
                    out
                }
            },
        }
    }

    /// Takes the end of the stream and gives the responses that still go to the client:
    /// the end of every choice that no chunk has terminated. Without an earlier data
    /// response there is no envelope to send it in.
    pub fn on_end<M, A>(&mut self) -> (out: Vec<Annotated<E, M, A>>)
        ensures
            match old(self).envelope() {
                None => out@ == Seq::<Annotated<E, M, A>>::empty() && final(self).view()
                    == old(self).view(),
                Some(template) => exists|flushed: Seq<ChoiceView>| #[trigger]
                    is_flush(old(self).view(), final(self).view(), flushed) && are_bare_deliveries(
                        out@,
                        template,
                        flushed,
                    ),
            },
            final(self).settings() == old(self).settings(),
            final(self).envelope() == old(self).envelope(),
            old(self).wf() ==> final(self).wf(),
    {
        match self.template.take() {
            None => Vec::new(),
            Some(template) => {
                let flushed = self.finish_unterminated_choices();
                let ghost views = flushed.deep_view();
                let out: Vec<Annotated<E, M, A>> = bare_responses(&template, flushed);
                self.template = Some(template);
                assert(is_flush(old(self).view(), self.view(), views));
                out
            },
        }
    }
}

/// Puts `index` into its place among numbers in ascending order.
fn insert_ascending(order: &mut Vec<u32>, index: u32)
    requires
        is_ascending(old(order)@),
        !old(order)@.contains(index),
    ensures
        is_ascending(final(order)@),
        forall|i: u32| #[trigger]
            final(order)@.contains(i) <==> old(order)@.contains(i) || i == index,
{
    let ghost before = order@;
    let mut place: usize = 0;
    while place < order.len() && order[place] < index
        invariant
            order@ == before,
            place <= order@.len(),
            forall|j: int| 0 <= j < place ==> order@[j] < index,
        decreases order@.len() - place,
    {
        place = place + 1;
    }
    order.insert(place, index);
    proof {
        let at = place as int;
        assert(order@ =~= before.insert(at, index));
        assert forall|i: u32| #[trigger]
            order@.contains(i) <==> before.contains(i) || i == index by {
            if before.contains(i) {
                let j = choose|j: int| 0 <= j < before.len() && before[j] == i;
                assert(order@[if j < at { j } else { j + 1 }] == i);
            }
            if i == index {
                assert(order@[at] == i);
            }
            if order@.contains(i) && i != index {
                let j = choose|j: int| 0 <= j < order@.len() && order@[j] == i;
                assert(before[if j < at { j } else { j - 1 }] == i);
            }
        }
        assert(at < before.len() ==> before[at] != index) by {
            if at < before.len() && before[at] == index {
                assert(before.contains(index));
            }
        }
    }
}

impl<E> View for UnifiedStream<E> {
    type V = StreamView;

    closed spec fn view(&self) -> StreamView {
        StreamView {
            slots: slots_of(self.states@),
            finished: self.finished@,
            refusals: self.refusals@,
        }
    }
}

} // verus!
