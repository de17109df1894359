//! Properties that relate several operations of the library.

use vstd::prelude::*;
use vstd::utf8::{encode_utf8, encode_utf8_decode_utf8};
use crate::meta_agent::{
    EventView, MetaAgent, count_changes, trace_content, event_content, trace_hash_of,
};
use crate::leaderboard::{ContributorStats, RankingCriteria, is_ranking, better};

verus! {

/// However a session was built from `new` or `with_profile` and a sequence
/// of `log_event` calls, it records one transition for each adjacent pair
/// of events whose agent kinds differ.
pub proof fn lemma_transitions_count_changes(s: MetaAgent)
    requires
        s.wf(),
    ensures
        s.transitions@.len() == count_changes(s.trace_view()),
{
}

/// Two traces that agree on every event's input, output, language and
/// agent kind have the same provenance hash, whatever their contributors,
/// backends, timestamps, confidences or metadata.
pub proof fn lemma_hash_determined_by_content(t1: Seq<EventView>, t2: Seq<EventView>)
    requires
        t1.len() == t2.len(),
        forall|i: int| 0 <= i < t1.len() ==> #[trigger] event_content(t1[i]) == event_content(t2[i]),
    ensures
        trace_hash_of(t1) == trace_hash_of(t2),
{
    lemma_content_equal(t1, t2);
}

proof fn lemma_content_equal(t1: Seq<EventView>, t2: Seq<EventView>)
    requires
        t1.len() == t2.len(),
        forall|i: int| 0 <= i < t1.len() ==> #[trigger] event_content(t1[i]) == event_content(t2[i]),
    ensures
        trace_content(t1) == trace_content(t2),
    decreases t1.len(),
{
    if t1.len() > 0 {
        assert forall|i: int| 0 <= i < t1.drop_last().len() implies #[trigger] event_content(t1.drop_last()[i]) == event_content(t2.drop_last()[i]) by {
            assert(event_content(t1[i]) == event_content(t2[i]));
        }
        lemma_content_equal(t1.drop_last(), t2.drop_last());
        assert(event_content(t1[t1.len() - 1]) == event_content(t2[t2.len() - 1]));
    }
}

proof fn lemma_content_split(a: Seq<EventView>, b: Seq<EventView>)
    ensures
        trace_content(a + b) == trace_content(a) + trace_content(b),
    decreases b.len(),
{
    if b.len() == 0 {
        assert(a + b =~= a);
    } else {
        lemma_content_split(a, b.drop_last());
        assert((a + b).drop_last() =~= a + b.drop_last());
    }
}

/// Distinct agent kinds have distinct names.
pub proof fn lemma_names_distinct(x: crate::meta_agent::AgentType, y: crate::meta_agent::AgentType)
    requires
        x != y,
    ensures
        x.name_spec() != y.name_spec(),
{
    reveal_strlit("Classification");
    reveal_strlit("Reasoning");
    reveal_strlit("Action");
    reveal_strlit("Retrieval");
    reveal_strlit("Meta");
    reveal_strlit("Synthesis");
    reveal_strlit("Validation");
    reveal_strlit("Translation");
    if x.name_spec().len() == y.name_spec().len() {
        assert(x.name_spec()[0] != y.name_spec()[0] || x.name_spec()[1] != y.name_spec()[1]
            || x.name_spec()[2] != y.name_spec()[2]);
    }
}

/// Sequences `p + x + q` and `p + y + q` differ when `x` and `y` do.
proof fn lemma_middle_differs(p: Seq<char>, x: Seq<char>, y: Seq<char>, q: Seq<char>)
    requires
        x != y,
    ensures
        p + x + q != p + y + q,
{
    if x.len() == y.len() {
        assert(!(x =~= y));
        let i = choose|i: int| 0 <= i < x.len() && x[i] != y[i];
        assert((p + x + q)[p.len() + i] == x[i]);
        assert((p + y + q)[p.len() + i] == y[i]);
    } else {
        assert((p + x + q).len() != (p + y + q).len());
    }
}

proof fn lemma_content_single(x: EventView)
    ensures
        trace_content(seq![x]) == event_content(x),
{
    assert(seq![x].drop_last() =~= Seq::<EventView>::empty());
    assert(trace_content(Seq::<EventView>::empty()) == Seq::<char>::empty());
    assert(Seq::<char>::empty() + event_content(x) =~= event_content(x));
}

proof fn lemma_content_around(t: Seq<EventView>, k: int)
    requires
        0 <= k < t.len(),
    ensures
        trace_content(t) == trace_content(t.subrange(0, k)) + event_content(t[k]) + trace_content(
            t.subrange(k + 1, t.len() as int),
        ),
{
    let before = t.subrange(0, k);
    let after = t.subrange(k + 1, t.len() as int);
    assert(t =~= before + seq![t[k]] + after);
    lemma_content_split(before + seq![t[k]], after);
    lemma_content_split(before, seq![t[k]]);
    lemma_content_single(t[k]);
}

proof fn lemma_event_content_differs(a: EventView, e: EventView)
    requires
        (e.input != a.input && e.output == a.output && e.language == a.language && e.agent == a.agent)
            || (e.input == a.input && e.output != a.output && e.language == a.language && e.agent == a.agent)
            || (e.input == a.input && e.output == a.output && e.language != a.language && e.agent == a.agent)
            || (e.input == a.input && e.output == a.output && e.language == a.language && e.agent != a.agent),
    ensures
        event_content(a) != event_content(e),
{
    let empty = Seq::<char>::empty();
    if e.input != a.input {
        lemma_middle_differs(empty, a.input, e.input, a.output + a.language + a.agent.name_spec());
        assert(event_content(a) =~= empty + a.input + (a.output + a.language + a.agent.name_spec()));
        assert(event_content(e) =~= empty + e.input + (a.output + a.language + a.agent.name_spec()));
    } else if e.output != a.output {
        lemma_middle_differs(a.input, a.output, e.output, a.language + a.agent.name_spec());
        assert(event_content(a) =~= a.input + a.output + (a.language + a.agent.name_spec()));
        assert(event_content(e) =~= a.input + e.output + (a.language + a.agent.name_spec()));
    } else if e.language != a.language {
        lemma_middle_differs(a.input + a.output, a.language, e.language, a.agent.name_spec());
    } else {
        lemma_names_distinct(a.agent, e.agent);
        lemma_middle_differs(a.input + a.output + a.language, a.agent.name_spec(), e.agent.name_spec(), empty);
        assert(event_content(a) =~= a.input + a.output + a.language + a.agent.name_spec() + empty);
        assert(event_content(e) =~= a.input + a.output + a.language + e.agent.name_spec() + empty);
    }
}

/// Changing one field (input, output, language or agent kind) of one event
/// changes the bytes that the provenance hash is computed over. That the
/// hash itself then differs rests on SHA-256 and is not stated here.
pub proof fn lemma_hash_input_sensitive(t: Seq<EventView>, k: int, e: EventView)
    requires
        0 <= k < t.len(),
        (e.input != t[k].input && e.output == t[k].output && e.language == t[k].language && e.agent == t[k].agent)
            || (e.input == t[k].input && e.output != t[k].output && e.language == t[k].language && e.agent == t[k].agent)
            || (e.input == t[k].input && e.output == t[k].output && e.language != t[k].language && e.agent == t[k].agent)
            || (e.input == t[k].input && e.output == t[k].output && e.language == t[k].language && e.agent != t[k].agent),
    ensures
        encode_utf8(trace_content(t)) != encode_utf8(trace_content(t.update(k, e))),
{
    let u = t.update(k, e);
    lemma_content_around(t, k);
    lemma_content_around(u, k);
    assert(u.subrange(0, k) =~= t.subrange(0, k));
    assert(u.subrange(k + 1, u.len() as int) =~= t.subrange(k + 1, t.len() as int));
    lemma_event_content_differs(t[k], e);
    lemma_middle_differs(trace_content(t.subrange(0, k)), event_content(t[k]), event_content(e),
        trace_content(t.subrange(k + 1, t.len() as int)));
    encode_utf8_decode_utf8(trace_content(t));
    encode_utf8_decode_utf8(trace_content(u));
}

/// In a ranking by depth, a contributor with the greater maximum depth is
/// placed strictly above one with a smaller one.
pub proof fn lemma_deeper_ranks_higher(entries: Seq<ContributorStats>, out: Seq<ContributorStats>, a: int, b: int)
    requires
        is_ranking(entries, out, RankingCriteria::TraceDepth),
        0 <= a < out.len(),
        0 <= b < out.len(),
        out[a].trace_depth > out[b].trace_depth,
    ensures
        a < b,
{
    if b < a {
        assert(!better(RankingCriteria::TraceDepth, out[a], out[b]));
    }
}

} // verus!
