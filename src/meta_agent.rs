use vstd::prelude::*;
use crate::ratio::Ratio;
use crate::text::signed_decimal;
use vstd::string::StringExecFns;
use vstd::string::StrSliceExecFns;
use vstd::utf8::{encode_utf8, decode_utf8};

verus! {

/// The largest trace a session holds; far beyond what fits in memory, it
/// keeps every character total of a trace inside `u128`.
pub const MAX_EVENTS: usize = usize::MAX / 64;

/// The kind of agent that produced an event.
#[derive(Clone, Copy, Debug, PartialEq, Eq, Hash, Structural)]
pub enum AgentType {
    Classification,
    Reasoning,
    Action,
    Retrieval,
    Meta,
    Synthesis,
    Validation,
    Translation,
}

/// Number of agent kinds.
pub const AGENT_KINDS: usize = 8;

impl AgentType {
    /// The display name of the kind.
    pub open spec fn name_spec(self) -> Seq<char> {
        match self {
            AgentType::Classification => "Classification"@,
            AgentType::Reasoning => "Reasoning"@,
            AgentType::Action => "Action"@,
            AgentType::Retrieval => "Retrieval"@,
            AgentType::Meta => "Meta"@,
            AgentType::Synthesis => "Synthesis"@,
            AgentType::Validation => "Validation"@,
            AgentType::Translation => "Translation"@,
        }
    }

    /// Position of the kind in declaration order.
    pub open spec fn index_spec(self) -> nat {
        match self {
            AgentType::Classification => 0,
            AgentType::Reasoning => 1,
            AgentType::Action => 2,
            AgentType::Retrieval => 3,
            AgentType::Meta => 4,
            AgentType::Synthesis => 5,
            AgentType::Validation => 6,
            AgentType::Translation => 7,
        }
    }

    /// The kind at position `i` of declaration order.
    pub open spec fn at_spec(i: nat) -> AgentType {
        if i == 0 {
            AgentType::Classification
        } else if i == 1 {
            AgentType::Reasoning
        } else if i == 2 {
            AgentType::Action
        } else if i == 3 {
            AgentType::Retrieval
        } else if i == 4 {
            AgentType::Meta
        } else if i == 5 {
            AgentType::Synthesis
        } else if i == 6 {
            AgentType::Validation
        } else {
            AgentType::Translation
        }
    }

    pub fn name(&self) -> (r: &'static str)
        ensures
            r@ == self.name_spec(),
    {
        match self {
            AgentType::Classification => "Classification",
            AgentType::Reasoning => "Reasoning",
            AgentType::Action => "Action",
            AgentType::Retrieval => "Retrieval",
            AgentType::Meta => "Meta",
            AgentType::Synthesis => "Synthesis",
            AgentType::Validation => "Validation",
            AgentType::Translation => "Translation",
        }
    }

    pub fn index(&self) -> (r: usize)
        ensures
            r == self.index_spec(),
            r < AGENT_KINDS,
            AgentType::at_spec(r as nat) == *self,
    {
        match self {
            AgentType::Classification => 0,
            AgentType::Reasoning => 1,
            AgentType::Action => 2,
            AgentType::Retrieval => 3,
            AgentType::Meta => 4,
            AgentType::Synthesis => 5,
            AgentType::Validation => 6,
            AgentType::Translation => 7,
        }
    }

    pub fn at(i: usize) -> (r: AgentType)
        requires
            i < AGENT_KINDS,
        ensures
            r == AgentType::at_spec(i as nat),
            r.index_spec() == i,
    {
        if i == 0 {
            AgentType::Classification
        } else if i == 1 {
            AgentType::Reasoning
        } else if i == 2 {
            AgentType::Action
        } else if i == 3 {
            AgentType::Retrieval
        } else if i == 4 {
            AgentType::Meta
        } else if i == 5 {
            AgentType::Synthesis
        } else if i == 6 {
            AgentType::Validation
        } else {
            AgentType::Translation
        }
    }

    /// The display name as an owned string.
    pub fn to_string(&self) -> (r: String)
        ensures
            r@ == self.name_spec(),
    {
        self.name().to_owned()
    }
}

/// One recorded step of a session. `confidence` is in thousandths
/// (950 stands for 0.95) and `timestamp` in milliseconds since the epoch.
///
/// Design note: storing confidence as unsigned thousandths tightens what a
/// caller can pass compared with a fraction of one: negative confidences
/// and steps finer than 0.001 cannot be expressed. Values above 1000 (above
/// 1.0) are still accepted unchecked.
#[derive(Clone, Debug)]
pub struct AgentEvent {
    pub timestamp: i64,
    pub agent: AgentType,
    pub input: String,
    pub output: String,
    pub language: String,
    pub confidence: u64,
    pub metadata: Vec<(String, String)>,
}

/// What an event holds, as mathematical values.
pub ghost struct EventView {
    pub timestamp: int,
    pub agent: AgentType,
    pub input: Seq<char>,
    pub output: Seq<char>,
    pub language: Seq<char>,
    pub confidence: nat,
    pub metadata: Seq<(Seq<char>, Seq<char>)>,
}

impl View for AgentEvent {
    type V = EventView;

    open spec fn view(&self) -> EventView {
        EventView {
            timestamp: self.timestamp as int,
            agent: self.agent,
            input: self.input@,
            output: self.output@,
            language: self.language@,
            confidence: self.confidence as nat,
            metadata: self.metadata@.map_values(|p: (String, String)| (p.0@, p.1@)),
        }
    }
}

/// A hand-off between two different agent kinds. `transition_score` is the
/// mean confidence (as a fraction of one) of the events just before it.
#[derive(Clone, Debug)]
pub struct AgentTransition {
    pub from_agent: AgentType,
    pub to_agent: AgentType,
    pub timestamp: i64,
    pub reason: String,
    pub transition_score: Ratio,
}

pub ghost struct TransitionView {
    pub from_agent: AgentType,
    pub to_agent: AgentType,
    pub timestamp: int,
    pub reason: Seq<char>,
    pub transition_score: Ratio,
}

impl View for AgentTransition {
    type V = TransitionView;

    open spec fn view(&self) -> TransitionView {
        TransitionView {
            from_agent: self.from_agent,
            to_agent: self.to_agent,
            timestamp: self.timestamp as int,
            reason: self.reason@,
            transition_score: self.transition_score,
        }
    }
}

/// Copies a string, keeping its characters.
fn copy_string(s: &String) -> (r: String)
    ensures
        r@ == s@,
{
    s.clone()
}

impl AgentEvent {
    /// A copy with the same contents.
    pub fn duplicate(&self) -> (r: AgentEvent)
        ensures
            r@ == self@,
    {
        let mut metadata: Vec<(String, String)> = Vec::new();
        let mut i: usize = 0;
        while i < self.metadata.len()
            invariant
                i <= self.metadata@.len(),
                metadata@.len() == i,
                forall|j: int|
                    0 <= j < i ==> (#[trigger] metadata@[j]).0@ == self.metadata@[j].0@
                        && metadata@[j].1@ == self.metadata@[j].1@,
            decreases self.metadata@.len() - i,
        {
            let pair = &self.metadata[i];
            metadata.push((copy_string(&pair.0), copy_string(&pair.1)));
            i = i + 1;
        }
        let r = AgentEvent {
            timestamp: self.timestamp,
            agent: self.agent,
            input: copy_string(&self.input),
            output: copy_string(&self.output),
            language: copy_string(&self.language),
            confidence: self.confidence,
            metadata,
        };
        proof {
            assert(r@.metadata =~= self@.metadata);
        }
        r
    }
}

impl AgentTransition {
    /// A copy with the same contents.
    pub fn duplicate(&self) -> (r: AgentTransition)
        ensures
            r@ == self@,
    {
        AgentTransition {
            from_agent: self.from_agent,
            to_agent: self.to_agent,
            timestamp: self.timestamp,
            reason: copy_string(&self.reason),
            transition_score: self.transition_score,
        }
    }
}

/// The events' contents, in order.
pub open spec fn events_view(t: Seq<AgentEvent>) -> Seq<EventView> {
    t.map_values(|e: AgentEvent| e@)
}

pub open spec fn transitions_view(t: Seq<AgentTransition>) -> Seq<TransitionView> {
    t.map_values(|e: AgentTransition| e@)
}

/// Number of adjacent pairs whose agent kinds differ.
pub open spec fn count_changes(t: Seq<EventView>) -> nat
    decreases t.len(),
{
    if t.len() < 2 {
        0
    } else {
        count_changes(t.drop_last()) + if t[t.len() - 2].agent != t.last().agent {
            1nat
        } else {
            0nat
        }
    }
}

/// Sum of the confidences of `t`.
pub open spec fn confidence_sum(t: Seq<EventView>) -> nat
    decreases t.len(),
{
    if t.len() == 0 {
        0
    } else {
        confidence_sum(t.drop_last()) + t.last().confidence
    }
}

/// The mean confidence of the last (up to three) events, as a fraction of
/// one; one when there is no event.
pub open spec fn recent_confidence(t: Seq<EventView>) -> Ratio {
    if t.len() == 0 {
        Ratio { num: 1, den: 1 }
    } else {
        let k: int = if t.len() < 3 { t.len() as int } else { 3 };
        Ratio {
            num: confidence_sum(t.subrange(t.len() - k, t.len() as int)) as u128,
            den: (k * 1000) as u128,
        }
    }
}


/// Names the SHA-256 digest of a byte string.
pub uninterp spec fn sha256_of(data: Seq<u8>) -> Seq<u8>;

/// Relies on `sha2::Sha256::digest` (through `digest::Digest`): the SHA-256
/// digest of `data`, whose output type holds 32 bytes.
#[verifier::external_body]
fn sha256(data: &[u8]) -> (r: Vec<u8>)
    ensures
        r@ == sha256_of(data@),
        r@.len() == 32,
{
    <sha2::Sha256 as sha2::Digest>::digest(data).to_vec()
}

#[verifier::external_type_specification]
#[verifier::external_body]
pub struct ExSystemTimeError(std::time::SystemTimeError);

/// Relies on `SystemTime::elapsed` of the Unix epoch: the time since the
/// epoch, or, when the clock reads earlier, an error that carries how much
/// earlier. It returns a `Result` rather than panicking. Nothing is promised
/// of the value.
#[verifier::external_body]
fn since_epoch() -> (r: Result<std::time::Duration, std::time::SystemTimeError>) {
    std::time::UNIX_EPOCH.elapsed()
}

/// Relies on `Duration::as_millis`: whole milliseconds of a duration.
pub assume_specification[ core::time::Duration::as_millis ](d: &core::time::Duration) -> u128;

/// Relies on `SystemTimeError::duration`: how far the clock lies before the
/// instant it was measured from.
pub assume_specification[ std::time::SystemTimeError::duration ](e: &std::time::SystemTimeError) -> core::time::Duration;

/// The current time in milliseconds since the Unix epoch, negative before
/// it, saturated to the range of `i64`. Never panics.
fn now_millis() -> (r: i64) {
    match since_epoch() {
        Ok(d) => {
            let ms = d.as_millis();
            if ms > i64::MAX as u128 { i64::MAX } else { ms as i64 }
        },
        Err(e) => {
            let ms = e.duration().as_millis();
            if ms > i64::MAX as u128 { i64::MIN } else { 0 - (ms as i64) }
        },
    }
}

/// A contributor's rolling profile. `avg_trace_depth` is an exact fraction.
#[derive(Clone, Debug)]
pub struct ContributorProfile {
    pub contributor_id: String,
    pub preferred_languages: Vec<String>,
    pub expertise_domains: Vec<String>,
    pub reasoning_style: String,
    pub total_traces: usize,
    pub avg_trace_depth: Ratio,
}

/// The identifier of a session begun at `millis`.
pub open spec fn session_label(millis: int) -> Seq<char> {
    "session_"@ + signed_decimal(millis)
}

/// One reasoning session: its trace, the hand-offs between agent kinds, and
/// the profile of the contributor who ran it.
pub struct MetaAgent {
    pub trace: Vec<AgentEvent>,
    pub transitions: Vec<AgentTransition>,
    pub contributor_id: String,
    pub backend_used: String,
    pub profile: ContributorProfile,
    pub session_id: String,
    pub current_agent: Option<AgentType>,
}

impl MetaAgent {
    pub open spec fn trace_view(&self) -> Seq<EventView> {
        events_view(self.trace@)
    }

    pub open spec fn transitions_spec(&self) -> Seq<TransitionView> {
        transitions_view(self.transitions@)
    }

    /// One transition per adjacent pair of differing agents, and the active
    /// agent is the last event's.
    pub open spec fn wf(&self) -> bool {
        &&& self.trace@.len() <= MAX_EVENTS
        &&& self.transitions@.len() == count_changes(self.trace_view())
        &&& self.current_agent == if self.trace@.len() == 0 {
            None::<AgentType>
        } else {
            Some(self.trace@.last().agent)
        }
    }

    fn new_session_id() -> (r: String)
        ensures
            exists|t: i64| r@ == session_label(t as int),
    {
        let t = now_millis();
        proof {
            reveal_strlit("session_");
        }
        let mut s = String::new();
        s.append("session_");
        crate::text::push_signed_decimal(&mut s, t);
        proof {
            assert(s@ =~= session_label(t as int));
        }
        s
    }

    /// A fresh session with the default profile: languages `["en"]`, no
    /// domains, style `analytical`, no traces, average depth zero.
    pub fn new(contributor_id: &str, backend_used: &str) -> (r: MetaAgent)
        ensures
            r.wf(),
            r.trace@.len() == 0,
            r.transitions@.len() == 0,
            r.contributor_id@ == contributor_id@,
            r.backend_used@ == backend_used@,
            r.profile.contributor_id@ == contributor_id@,
            r.profile.preferred_languages@.len() == 1,
            r.profile.preferred_languages@[0]@ == "en"@,
            r.profile.expertise_domains@.len() == 0,
            r.profile.reasoning_style@ == "analytical"@,
            r.profile.total_traces == 0,
            r.profile.avg_trace_depth == (Ratio { num: 0, den: 1 }),
            exists|t: i64| r.session_id@ == session_label(t as int),
    {
        let mut preferred_languages: Vec<String> = Vec::new();
        preferred_languages.push("en".to_owned());
        let profile = ContributorProfile {
            contributor_id: contributor_id.to_owned(),
            preferred_languages,
            expertise_domains: Vec::new(),
            reasoning_style: "analytical".to_owned(),
            total_traces: 0,
            avg_trace_depth: Ratio::new(0, 1),
        };
        MetaAgent::with_profile(contributor_id, backend_used, profile)
    }

    /// A fresh session that carries the given profile.
    pub fn with_profile(contributor_id: &str, backend_used: &str, profile: ContributorProfile) -> (r: MetaAgent)
        ensures
            r.wf(),
            r.trace@.len() == 0,
            r.transitions@.len() == 0,
            r.contributor_id@ == contributor_id@,
            r.backend_used@ == backend_used@,
            r.profile == profile,
            exists|t: i64| r.session_id@ == session_label(t as int),
    {
        MetaAgent {
            trace: Vec::new(),
            transitions: Vec::new(),
            contributor_id: contributor_id.to_owned(),
            backend_used: backend_used.to_owned(),
            profile,
            session_id: MetaAgent::new_session_id(),
            current_agent: None,
        }
    }

    /// Appends an event with an empty metadata map; see
    /// `log_event_with_metadata`.
    pub fn log_event(&mut self, agent: AgentType, input: &str, output: &str, language: &str, confidence: u64)
        requires
            old(self).wf(),
            old(self).trace@.len() < MAX_EVENTS,
        ensures
            final(self).wf(),
            final(self).trace_view().drop_last() == old(self).trace_view(),
            final(self).trace_view().len() == old(self).trace_view().len() + 1,
            final(self).trace_view().last().agent == agent,
            final(self).trace_view().last().input == input@,
            final(self).trace_view().last().output == output@,
            final(self).trace_view().last().language == language@,
            final(self).trace_view().last().confidence == confidence,
            final(self).trace_view().last().metadata.len() == 0,
            logged_transitions(old(self).current_agent, agent, old(self).trace_view(),
                old(self).transitions_spec(), final(self).transitions_spec()),
            final(self).contributor_id == old(self).contributor_id,
            final(self).backend_used == old(self).backend_used,
            final(self).profile == old(self).profile,
            final(self).session_id == old(self).session_id,
    {
        self.log_event_with_metadata(agent, input, output, language, confidence, Vec::new());
    }

    /// Appends an event stamped with the current time. When a previous
    /// event exists and its agent differs from `agent`, a transition from
    /// that agent is recorded first, scored by `recent_confidence` of the
    /// trace before this event. Inputs are not validated.
    pub fn log_event_with_metadata(
        &mut self,
        agent: AgentType,
        input: &str,
        output: &str,
        language: &str,
        confidence: u64,
        metadata: Vec<(String, String)>,
    )
        requires
            old(self).wf(),
            old(self).trace@.len() < MAX_EVENTS,
        ensures
            final(self).wf(),
            final(self).trace_view().drop_last() == old(self).trace_view(),
            final(self).trace_view().len() == old(self).trace_view().len() + 1,
            final(self).trace_view().last().agent == agent,
            final(self).trace_view().last().input == input@,
            final(self).trace_view().last().output == output@,
            final(self).trace_view().last().language == language@,
            final(self).trace_view().last().confidence == confidence,
            final(self).trace_view().last().metadata == metadata@.map_values(
                |p: (String, String)| (p.0@, p.1@),
            ),
            logged_transitions(old(self).current_agent, agent, old(self).trace_view(),
                old(self).transitions_spec(), final(self).transitions_spec()),
            final(self).contributor_id == old(self).contributor_id,
            final(self).backend_used == old(self).backend_used,
            final(self).profile == old(self).profile,
            final(self).session_id == old(self).session_id,
    {
        if let Some(prev) = self.current_agent {
            if prev != agent {
                self.track_transition(prev, agent, "natural_flow");
            }
        }
        let event = AgentEvent {
            timestamp: now_millis(),
            agent,
            input: input.to_owned(),
            output: output.to_owned(),
            language: language.to_owned(),
            confidence,
            metadata,
        };
        let ghost before = self.trace_view();
        self.trace.push(event);
        self.current_agent = Some(agent);
        proof {
            assert(self.trace_view().drop_last() =~= before);
        }
    }

    /// Records a transition from `from` to `to`, stamped with the current
    /// time and scored by `recent_confidence` of the trace as it stands.
    pub fn track_transition(&mut self, from: AgentType, to: AgentType, reason: &str)
        ensures
            final(self).transitions_spec().drop_last() == old(self).transitions_spec(),
            final(self).transitions_spec().len() == old(self).transitions_spec().len() + 1,
            final(self).transitions_spec().last().from_agent == from,
            final(self).transitions_spec().last().to_agent == to,
            final(self).transitions_spec().last().reason == reason@,
            final(self).transitions_spec().last().transition_score == recent_confidence(
                old(self).trace_view(),
            ),
            final(self).trace == old(self).trace,
            final(self).current_agent == old(self).current_agent,
            final(self).contributor_id == old(self).contributor_id,
            final(self).backend_used == old(self).backend_used,
            final(self).profile == old(self).profile,
            final(self).session_id == old(self).session_id,
    {
        let transition = AgentTransition {
            from_agent: from,
            to_agent: to,
            timestamp: now_millis(),
            reason: reason.to_owned(),
            transition_score: self.compute_transition_score(),
        };
        let ghost before = self.transitions_spec();
        self.transitions.push(transition);
        proof {
            assert(self.transitions_spec().drop_last() =~= before);
        }
    }

    /// Mean confidence of the last (up to three) events; one for an empty
    /// trace.
    pub fn compute_transition_score(&self) -> (r: Ratio)
        ensures
            r == recent_confidence(self.trace_view()),
            r.wf(),
    {
        let n = self.trace.len();
        if n == 0 {
            return Ratio::new(1, 1);
        }
        let k: usize = if n < 3 { n } else { 3 };
        let ghost t = self.trace_view();
        let mut sum: u128 = 0;
        let mut i: usize = n - k;
        while i < n
            invariant
                t == self.trace_view(),
                n == t.len(),
                1 <= k <= 3,
                k <= n,
                n - k <= i <= n,
                sum as nat == confidence_sum(t.subrange(n - k, i as int)),
                sum <= (i - (n - k)) * 0x1_0000_0000_0000_0000,
            decreases n - i,
        {
            proof {
                assert(t.subrange(n - k, i + 1).drop_last() =~= t.subrange(n - k, i as int));
            }
            sum = sum + self.trace[i].confidence as u128;
            i = i + 1;
        }
        Ratio::new(sum, (k as u128) * 1000)
    }

    /// Number of events in the trace.
    pub fn get_trace_depth(&self) -> (r: usize)
        ensures
            r == self.trace@.len(),
    {
        self.trace.len()
    }

    /// Number of recorded transitions.
    pub fn get_transition_count(&self) -> (r: usize)
        ensures
            r == self.transitions@.len(),
    {
        self.transitions.len()
    }
}

/// What logging an event after `prev` does to the transitions: one more,
/// from `prev` to `agent`, when they differ; none otherwise.
pub open spec fn logged_transitions(
    prev: Option<AgentType>,
    agent: AgentType,
    trace_before: Seq<EventView>,
    before: Seq<TransitionView>,
    after: Seq<TransitionView>,
) -> bool {
    if prev is Some && prev->Some_0 != agent {
        &&& after.drop_last() == before
        &&& after.len() == before.len() + 1
        &&& after.last().from_agent == prev->Some_0
        &&& after.last().to_agent == agent
        &&& after.last().reason == "natural_flow"@
        &&& after.last().transition_score == recent_confidence(trace_before)
    } else {
        after == before
    }
}


/// Count of events per language, one entry per distinct language in order
/// of first appearance.
#[derive(Clone, Debug)]
pub struct LanguageHistogram {
    pub entries: Vec<(String, usize)>,
}

impl View for LanguageHistogram {
    type V = Seq<(Seq<char>, nat)>;

    open spec fn view(&self) -> Seq<(Seq<char>, nat)> {
        self.entries@.map_values(|p: (String, usize)| (p.0@, p.1 as nat))
    }
}

/// Index of the last entry of `h` whose language is `l`, or -1.
pub open spec fn hist_index(h: Seq<(Seq<char>, nat)>, l: Seq<char>) -> int
    decreases h.len(),
{
    if h.len() == 0 {
        -1
    } else if h.last().0 == l {
        h.len() - 1
    } else {
        hist_index(h.drop_last(), l)
    }
}

/// Counts one more occurrence of `l`.
pub open spec fn hist_add(h: Seq<(Seq<char>, nat)>, l: Seq<char>) -> Seq<(Seq<char>, nat)> {
    let i = hist_index(h, l);
    if i < 0 {
        h.push((l, 1))
    } else {
        h.update(i, (l, h[i].1 + 1))
    }
}

/// The histogram of a sequence of language tags.
pub open spec fn hist_of(ls: Seq<Seq<char>>) -> Seq<(Seq<char>, nat)>
    decreases ls.len(),
{
    if ls.len() == 0 {
        Seq::empty()
    } else {
        hist_add(hist_of(ls.drop_last()), ls.last())
    }
}

pub open spec fn languages(t: Seq<EventView>) -> Seq<Seq<char>> {
    t.map_values(|e: EventView| e.language)
}

/// Number of distinct language tags of a trace.
pub open spec fn distinct_languages(t: Seq<EventView>) -> nat {
    hist_of(languages(t)).len()
}

proof fn lemma_hist_index_range(h: Seq<(Seq<char>, nat)>, l: Seq<char>)
    ensures
        -1 <= hist_index(h, l) < h.len(),
        hist_index(h, l) >= 0 ==> h[hist_index(h, l)].0 == l,
        hist_index(h, l) < 0 ==> forall|j: int| 0 <= j < h.len() ==> h[j].0 != l,
    decreases h.len(),
{
    if h.len() > 0 {
        lemma_hist_index_range(h.drop_last(), l);
        assert forall|j: int| 0 <= j < h.len() && hist_index(h, l) < 0 implies h[j].0 != l by {
            if j < h.len() - 1 {
                assert(h[j] == h.drop_last()[j]);
            }
        }
    }
}

impl LanguageHistogram {
    /// Number of distinct languages.
    pub fn len(&self) -> (r: usize)
        ensures
            r == self@.len(),
    {
        self.entries.len()
    }

    /// Whether `language` has an entry.
    pub fn contains_key(&self, language: &str) -> (r: bool)
        ensures
            r == exists|j: int| 0 <= j < self@.len() && self@[j].0 == language@,
    {
        match self.get(language) {
            Some(_) => true,
            None => false,
        }
    }

    /// The count of `language`, if it has an entry.
    pub fn get(&self, language: &str) -> (r: Option<usize>)
        ensures
            r is Some <==> exists|j: int| 0 <= j < self@.len() && self@[j].0 == language@,
            r is Some ==> exists|j: int|
                0 <= j < self@.len() && self@[j].0 == language@ && self@[j].1 == r->Some_0,
    {
        let key = language.to_owned();
        let mut j: usize = 0;
        while j < self.entries.len()
            invariant
                key@ == language@,
                j <= self@.len(),
                self@.len() == self.entries@.len(),
                forall|m: int| 0 <= m < j ==> self@[m].0 != language@,
            decreases self@.len() - j,
        {
            assert(self@[j as int].0 == self.entries@[j as int].0@);
            if self.entries[j].0 == key {
                proof {
                    assert(self@[j as int].0 == language@);
                }
                return Some(self.entries[j].1);
            }
            j = j + 1;
        }
        None
    }
}

/// Number of events of kind `a`.
pub open spec fn agent_count(t: Seq<EventView>, a: AgentType) -> nat
    decreases t.len(),
{
    if t.len() == 0 {
        0
    } else {
        agent_count(t.drop_last(), a) + if t.last().agent == a {
            1nat
        } else {
            0nat
        }
    }
}

/// Number of kinds at positions `0..i` that occur in `t`.
pub open spec fn kinds_present(t: Seq<EventView>, i: nat) -> nat
    decreases i,
{
    if i == 0 {
        0
    } else {
        kinds_present(t, (i - 1) as nat) + if agent_count(t, AgentType::at_spec((i - 1) as nat)) > 0 {
            1nat
        } else {
            0nat
        }
    }
}

/// Number of distinct agent kinds in `t`.
pub open spec fn distinct_agents(t: Seq<EventView>) -> nat {
    kinds_present(t, 8)
}

/// `Name: count` of the kind at position `i`.
pub open spec fn distribution_part(t: Seq<EventView>, i: nat) -> Seq<char> {
    AgentType::at_spec(i).name_spec() + ": "@ + crate::text::decimal(agent_count(t, AgentType::at_spec(i)))
}

/// `Name: count` for each kind at positions `0..i` that occurs, in order.
pub open spec fn distribution_parts(t: Seq<EventView>, i: nat) -> Seq<Seq<char>>
    decreases i,
{
    if i == 0 {
        Seq::empty()
    } else {
        let k = (i - 1) as nat;
        let before = distribution_parts(t, k);
        if agent_count(t, AgentType::at_spec(k)) > 0 {
            before.push(distribution_part(t, k))
        } else {
            before
        }
    }
}

/// The parts separated by `, `.
pub open spec fn join(parts: Seq<Seq<char>>) -> Seq<char>
    decreases parts.len(),
{
    if parts.len() == 0 {
        Seq::empty()
    } else if parts.len() == 1 {
        parts[0]
    } else {
        join(parts.drop_last()) + ", "@ + parts.last()
    }
}

/// The summary sentence of a fold.
pub open spec fn summary_text(session_id: Seq<char>, t: Seq<EventView>, transitions: nat) -> Seq<char> {
    "Session "@ + session_id + " with "@ + crate::text::decimal(t.len()) + " reasoning steps across "@
        + crate::text::decimal(distinct_languages(t)) + " languages. Agent distribution: {"@ + join(
        distribution_parts(t, 8),
    ) + "}. Transitions: "@ + crate::text::decimal(transitions)
}

/// UTF-8 bytes of input and output over the whole trace.
pub open spec fn byte_total(t: Seq<EventView>) -> nat
    decreases t.len(),
{
    if t.len() == 0 {
        0
    } else {
        byte_total(t.drop_last()) + encode_utf8(t.last().input).len() + encode_utf8(t.last().output).len()
    }
}

/// UTF-8 length of the summary over the UTF-8 bytes of input and output;
/// one when the trace has none.
pub open spec fn compression_of(summary: Seq<char>, t: Seq<EventView>) -> Ratio {
    if byte_total(t) == 0 {
        Ratio { num: 1, den: 1 }
    } else {
        Ratio { num: encode_utf8(summary).len() as u128, den: byte_total(t) as u128 }
    }
}

/// A non-empty character sequence has a non-empty UTF-8 encoding.
proof fn lemma_encode_nonempty(s: Seq<char>)
    requires
        s.len() > 0,
    ensures
        encode_utf8(s).len() > 0,
{
    vstd::utf8::encode_utf8_decode_utf8(s);
    if encode_utf8(s).len() == 0 {
        assert(encode_utf8(s) =~= Seq::<u8>::empty());
        assert(decode_utf8(Seq::<u8>::empty()) =~= Seq::<char>::empty());
    }
}

/// Number of events whose confidence exceeds 0.8.
pub open spec fn high_confidence_count(t: Seq<EventView>) -> nat
    decreases t.len(),
{
    if t.len() == 0 {
        0
    } else {
        high_confidence_count(t.drop_last()) + if t.last().confidence > 800 {
            1nat
        } else {
            0nat
        }
    }
}

/// The insights of a fold, in order, each present only when its trigger holds.
pub open spec fn insights_of(t: Seq<EventView>, transitions: nat) -> Seq<Seq<char>> {
    let h = high_confidence_count(t);
    let k = distinct_languages(t);
    let first: Seq<Seq<char>> = if h > 0 {
        seq![crate::text::decimal(h) + " high-confidence reasoning steps"@]
    } else {
        Seq::empty()
    };
    let second: Seq<Seq<char>> = if k > 1 {
        seq!["Multilingual reasoning across "@ + crate::text::decimal(k) + " languages"@]
    } else {
        Seq::empty()
    };
    let third: Seq<Seq<char>> = if transitions > 5 {
        seq!["Complex reasoning with "@ + crate::text::decimal(transitions) + " agent transitions"@]
    } else {
        Seq::empty()
    };
    first + second + third
}

/// A compressed, read-only summary of a session's trace.
pub struct MemoryFold {
    pub session_id: String,
    pub folded_trace: Vec<AgentEvent>,
    pub summary: String,
    pub compression_ratio: Ratio,
    pub key_insights: Vec<String>,
    pub language_distribution: LanguageHistogram,
}

pub open spec fn strings_view(v: Seq<String>) -> Seq<Seq<char>> {
    v.map_values(|s: String| s@)
}

impl MetaAgent {
    /// Count of events per language tag.
    pub fn compute_language_distribution(&self) -> (r: LanguageHistogram)
        requires
            self.wf(),
        ensures
            r@ == hist_of(languages(self.trace_view())),
    {
        let ghost t = self.trace_view();
        let mut entries: Vec<(String, usize)> = Vec::new();
        let mut i: usize = 0;
        while i < self.trace.len()
            invariant
                t == self.trace_view(),
                i <= t.len(),
                entries@.map_values(|p: (String, usize)| (p.0@, p.1 as nat)) == hist_of(
                    languages(t.subrange(0, i as int)),
                ),
                forall|j: int| 0 <= j < entries@.len() ==> #[trigger] entries@[j].1 <= i,
            decreases t.len() - i,
        {
            let ghost hv = entries@.map_values(|p: (String, usize)| (p.0@, p.1 as nat));
            let lang = &self.trace[i].language;
            proof {
                assert(languages(t.subrange(0, i + 1)).drop_last() =~= languages(t.subrange(0, i as int)));
                assert(languages(t.subrange(0, i + 1)).last() == lang@);
                lemma_hist_index_range(hv, lang@);
            }
            let mut j: usize = entries.len();
            let mut found = false;
            proof {
                assert(hv.subrange(0, j as int) =~= hv);
            }
            while j > 0 && !found
                invariant
                    j <= entries@.len(),
                    hv == entries@.map_values(|p: (String, usize)| (p.0@, p.1 as nat)),
                    found ==> j > 0 && hist_index(hv, lang@) == j - 1,
                    !found ==> hist_index(hv, lang@) == hist_index(hv.subrange(0, j as int), lang@),
                decreases j + if found { 0int } else { 1int },
            {
                proof {
                    assert(hv.subrange(0, j as int).drop_last() =~= hv.subrange(0, j - 1));
                    assert(hv[j - 1].0 == entries@[j - 1].0@);
                }
                if entries[j - 1].0 == *lang {
                    found = true;
                } else {
                    j = j - 1;
                }
            }
            if found {
                let k = j - 1;
                let c = entries[k].1;
                let name = copy_string(lang);
                entries.set(k, (name, c + 1));
                proof {
                    assert(hist_index(hv, lang@) == k);
                    assert(entries@.map_values(|p: (String, usize)| (p.0@, p.1 as nat)) =~= hist_add(hv, lang@));
                }
            } else {
                proof {
                    assert(hv.subrange(0, 0) =~= Seq::<(Seq<char>, nat)>::empty());
                }
                entries.push((copy_string(lang), 1));
                proof {
                    assert(entries@.map_values(|p: (String, usize)| (p.0@, p.1 as nat)) =~= hist_add(hv, lang@));
                }
            }
            i = i + 1;
        }
        proof {
            assert(t.subrange(0, t.len() as int) =~= t);
        }
        LanguageHistogram { entries }
    }
}

impl MetaAgent {
    /// Count of events of each kind, indexed by declaration order.
    pub fn count_agent_types(&self) -> (r: Vec<usize>)
        ensures
            r@.len() == AGENT_KINDS,
            forall|k: int| 0 <= k < 8 ==> #[trigger] r@[k] == agent_count(self.trace_view(), AgentType::at_spec(k as nat)),
    {
        let ghost t = self.trace_view();
        let mut counts: Vec<usize> = vec![0, 0, 0, 0, 0, 0, 0, 0];
        let mut i: usize = 0;
        while i < self.trace.len()
            invariant
                t == self.trace_view(),
                i <= t.len(),
                counts@.len() == 8,
                forall|k: int| 0 <= k < 8 ==> #[trigger] counts@[k] == agent_count(t.subrange(0, i as int), AgentType::at_spec(k as nat)),
                forall|k: int| 0 <= k < 8 ==> #[trigger] counts@[k] <= i,
            decreases t.len() - i,
        {
            let a = self.trace[i].agent;
            let x = a.index();
            proof {
                assert(t.subrange(0, i + 1).drop_last() =~= t.subrange(0, i as int));
                assert(t.subrange(0, i + 1).last().agent == a);
            }
            let c = counts[x];
            counts.set(x, c + 1);
            i = i + 1;
            proof {
                assert forall|k: int| 0 <= k < 8 implies #[trigger] counts@[k] == agent_count(t.subrange(0, i as int), AgentType::at_spec(k as nat)) by {
                    if k != x {
                        assert(AgentType::at_spec(k as nat) != a);
                    }
                }
            }
        }
        proof {
            assert(t.subrange(0, t.len() as int) =~= t);
        }
        counts
    }

    /// The summary sentence: session id, number of steps, number of
    /// languages, occurrences of each kind present, number of transitions.
    pub fn generate_summary(&self) -> (r: String)
        requires
            self.wf(),
        ensures
            r@ == summary_text(self.session_id@, self.trace_view(), self.transitions@.len()),
    {
        let ghost t = self.trace_view();
        let counts = self.count_agent_types();
        let hist = self.compute_language_distribution();
        proof {
            reveal_strlit("Session ");
            reveal_strlit(" with ");
            reveal_strlit(" reasoning steps across ");
            reveal_strlit(" languages. Agent distribution: {");
            reveal_strlit("}. Transitions: ");
            reveal_strlit(": ");
            reveal_strlit(", ");
        }
        let mut s = String::new();
        s.append("Session ");
        s.append(self.session_id.as_str());
        s.append(" with ");
        crate::text::push_decimal(&mut s, self.trace.len() as u128);
        s.append(" reasoning steps across ");
        crate::text::push_decimal(&mut s, hist.len() as u128);
        s.append(" languages. Agent distribution: {");
        let ghost head = s@;
        let mut any = false;
        let mut k: usize = 0;
        while k < AGENT_KINDS
            invariant
                t == self.trace_view(),
                counts@.len() == 8,
                forall|m: int| 0 <= m < 8 ==> #[trigger] counts@[m] == agent_count(t, AgentType::at_spec(m as nat)),
                k <= 8,
                s@ == head + join(distribution_parts(t, k as nat)),
                any == (distribution_parts(t, k as nat).len() > 0),
            decreases 8 - k,
        {
            let c = counts[k];
            if c > 0 {
                let a = AgentType::at(k);
                if any {
                    s.append(", ");
                }
                s.append(a.name());
                s.append(": ");
                crate::text::push_decimal(&mut s, c as u128);
                any = true;
            }
            k = k + 1;
            proof {
                let parts = distribution_parts(t, k as nat);
                if c > 0 {
                    assert(parts.drop_last() =~= distribution_parts(t, (k - 1) as nat));
                }
                assert(s@ =~= head + join(distribution_parts(t, k as nat)));
            }
        }
        s.append("}. Transitions: ");
        crate::text::push_decimal(&mut s, self.transitions.len() as u128);
        proof {
            assert(s@ =~= summary_text(self.session_id@, t, self.transitions@.len()));
        }
        s
    }
}

/// What the provenance hash is computed over: for each event in order,
/// its input, output, language and agent name, back to back.
pub open spec fn trace_content(t: Seq<EventView>) -> Seq<char>
    decreases t.len(),
{
    if t.len() == 0 {
        Seq::empty()
    } else {
        trace_content(t.drop_last()) + event_content(t.last())
    }
}

pub open spec fn event_content(e: EventView) -> Seq<char> {
    e.input + e.output + e.language + e.agent.name_spec()
}

/// The provenance hash of a trace: SHA-256 of the UTF-8 encoding of its
/// content, in lowercase hexadecimal.
pub open spec fn trace_hash_of(t: Seq<EventView>) -> Seq<char> {
    crate::text::hex_text(sha256_of(encode_utf8(trace_content(t))))
}

/// The uniqueness score `(a/8 + l/5 + min(1, n_t/n)) / 3` over a common
/// denominator, where `a` is the number of distinct agent kinds, `l` the
/// number of distinct languages, `n_t` the number of transitions and `n`
/// the number of events; the last term is zero for an empty trace.
pub open spec fn uniqueness_of(t: Seq<EventView>, transitions: nat) -> Ratio {
    let n = t.len();
    let a = distinct_agents(t);
    let l = distinct_languages(t);
    let m = if transitions < n { transitions } else { n };
    if n == 0 {
        Ratio { num: 0, den: 360 }
    } else {
        Ratio { num: (15 * a * n + 24 * l * n + 120 * m) as u128, den: (360 * n) as u128 }
    }
}

proof fn lemma_hist_len(ls: Seq<Seq<char>>)
    ensures
        hist_of(ls).len() <= ls.len(),
    decreases ls.len(),
{
    if ls.len() > 0 {
        lemma_hist_len(ls.drop_last());
        lemma_hist_index_range(hist_of(ls.drop_last()), ls.last());
    }
}

proof fn lemma_kinds_bound(t: Seq<EventView>, i: nat)
    ensures
        kinds_present(t, i) <= i,
    decreases i,
{
    if i > 0 {
        lemma_kinds_bound(t, (i - 1) as nat);
    }
}

/// A content-addressed record of what a session did.
pub struct ProvenanceLog {
    pub trace_hash: String,
    pub agent_sequence: Vec<AgentType>,
    pub contributor_id: String,
    pub backend_used: String,
    pub timestamp: i64,
    pub trace_depth: usize,
    pub uniqueness_score: Ratio,
    pub transitions: Vec<AgentTransition>,
}

impl ProvenanceLog {
    /// A copy with the same contents.
    pub fn duplicate(&self) -> (r: ProvenanceLog)
        ensures
            r.trace_hash@ == self.trace_hash@,
            r.agent_sequence@ == self.agent_sequence@,
            r.contributor_id@ == self.contributor_id@,
            r.backend_used@ == self.backend_used@,
            r.timestamp == self.timestamp,
            r.trace_depth == self.trace_depth,
            r.uniqueness_score == self.uniqueness_score,
            transitions_view(r.transitions@) == transitions_view(self.transitions@),
    {
        ProvenanceLog {
            trace_hash: copy_string(&self.trace_hash),
            agent_sequence: self.agent_sequence.clone(),
            contributor_id: copy_string(&self.contributor_id),
            backend_used: copy_string(&self.backend_used),
            timestamp: self.timestamp,
            trace_depth: self.trace_depth,
            uniqueness_score: self.uniqueness_score,
            transitions: copy_transitions(&self.transitions),
        }
    }
}

fn copy_transitions(v: &Vec<AgentTransition>) -> (r: Vec<AgentTransition>)
    ensures
        transitions_view(r@) == transitions_view(v@),
{
    let mut r: Vec<AgentTransition> = Vec::new();
    let mut i: usize = 0;
    while i < v.len()
        invariant
            i <= v@.len(),
            transitions_view(r@) == transitions_view(v@.subrange(0, i as int)),
        decreases v@.len() - i,
    {
        let ghost before = r@;
        let x = v[i].duplicate();
        r.push(x);
        proof {
            assert(v@.subrange(0, i + 1) =~= v@.subrange(0, i as int).push(v@[i as int]));
            assert(r@ =~= before.push(x));
            assert(transitions_view(r@) =~= transitions_view(before).push(x@));
            assert(transitions_view(v@.subrange(0, i + 1)) =~= transitions_view(v@.subrange(0, i as int)).push(v@[i as int]@));
        }
        i = i + 1;
    }
    proof {
        assert(v@.subrange(0, v@.len() as int) =~= v@);
    }
    r
}

fn copy_events(v: &Vec<AgentEvent>) -> (r: Vec<AgentEvent>)
    ensures
        events_view(r@) == events_view(v@),
{
    let mut r: Vec<AgentEvent> = Vec::new();
    let mut i: usize = 0;
    while i < v.len()
        invariant
            i <= v@.len(),
            events_view(r@) == events_view(v@.subrange(0, i as int)),
        decreases v@.len() - i,
    {
        let ghost before = r@;
        let x = v[i].duplicate();
        r.push(x);
        proof {
            assert(v@.subrange(0, i + 1) =~= v@.subrange(0, i as int).push(v@[i as int]));
            assert(r@ =~= before.push(x));
            assert(events_view(r@) =~= events_view(before).push(x@));
            assert(events_view(v@.subrange(0, i + 1)) =~= events_view(v@.subrange(0, i as int)).push(v@[i as int]@));
        }
        i = i + 1;
    }
    proof {
        assert(v@.subrange(0, v@.len() as int) =~= v@);
    }
    r
}

impl MetaAgent {
    /// The insights whose triggers hold, in a fixed order: high-confidence
    /// steps, then multilingual reasoning, then complex transitions.
    pub fn extract_key_insights(&self) -> (r: Vec<String>)
        requires
            self.wf(),
        ensures
            strings_view(r@) == insights_of(self.trace_view(), self.transitions@.len()),
    {
        let ghost t = self.trace_view();
        let mut high: usize = 0;
        let mut i: usize = 0;
        while i < self.trace.len()
            invariant
                t == self.trace_view(),
                i <= t.len(),
                high == high_confidence_count(t.subrange(0, i as int)),
                high <= i,
            decreases t.len() - i,
        {
            proof {
                assert(t.subrange(0, i + 1).drop_last() =~= t.subrange(0, i as int));
            }
            if self.trace[i].confidence > 800 {
                high = high + 1;
            }
            i = i + 1;
        }
        proof {
            assert(t.subrange(0, t.len() as int) =~= t);
            reveal_strlit(" high-confidence reasoning steps");
            reveal_strlit("Multilingual reasoning across ");
            reveal_strlit(" languages");
            reveal_strlit("Complex reasoning with ");
            reveal_strlit(" agent transitions");
        }
        let languages = self.compute_language_distribution().len();
        let mut insights: Vec<String> = Vec::new();
        if high > 0 {
            let mut s = String::new();
            crate::text::push_decimal(&mut s, high as u128);
            s.append(" high-confidence reasoning steps");
            insights.push(s);
        }
        if languages > 1 {
            let mut s = String::new();
            s.append("Multilingual reasoning across ");
            crate::text::push_decimal(&mut s, languages as u128);
            s.append(" languages");
            insights.push(s);
        }
        let transitions = self.transitions.len();
        if transitions > 5 {
            let mut s = String::new();
            s.append("Complex reasoning with ");
            crate::text::push_decimal(&mut s, transitions as u128);
            s.append(" agent transitions");
            insights.push(s);
        }
        proof {
            assert(strings_view(insights@) =~= insights_of(t, self.transitions@.len()));
        }
        insights
    }

    /// Folds the trace into a summary. Reads the session and changes nothing.
    pub fn fold_memory(&self) -> (r: MemoryFold)
        requires
            self.wf(),
        ensures
            r.session_id@ == self.session_id@,
            events_view(r.folded_trace@) == self.trace_view(),
            r.summary@ == summary_text(self.session_id@, self.trace_view(), self.transitions@.len()),
            r.compression_ratio == compression_of(r.summary@, self.trace_view()),
            self.trace@.len() == 0 ==> r.compression_ratio == (Ratio { num: 1, den: 1 }),
            r.compression_ratio.num > 0,
            r.compression_ratio.den > 0,
            strings_view(r.key_insights@) == insights_of(self.trace_view(), self.transitions@.len()),
            r.language_distribution@ == hist_of(languages(self.trace_view())),
    {
        let ghost t = self.trace_view();
        let mut total: u128 = 0;
        let mut i: usize = 0;
        while i < self.trace.len()
            invariant
                t == self.trace_view(),
                i <= t.len(),
                t.len() <= MAX_EVENTS,
                total == byte_total(t.subrange(0, i as int)),
                total <= i * 0x2_0000_0000_0000_0000,
            decreases t.len() - i,
        {
            proof {
                assert(t.subrange(0, i + 1).drop_last() =~= t.subrange(0, i as int));
            }
            let a = self.trace[i].input.as_str().as_bytes().len();
            let b = self.trace[i].output.as_str().as_bytes().len();
            total = total + a as u128 + b as u128;
            i = i + 1;
        }
        proof {
            assert(t.subrange(0, t.len() as int) =~= t);
        }
        let summary = self.generate_summary();
        proof {
            reveal_strlit("Session ");
            assert(summary@.len() >= 8);
            lemma_encode_nonempty(summary@);
        }
        let compression_ratio = if total > 0 {
            Ratio::new(summary.as_str().as_bytes().len() as u128, total)
        } else {
            Ratio::new(1, 1)
        };
        MemoryFold {
            session_id: copy_string(&self.session_id),
            folded_trace: copy_events(&self.trace),
            summary,
            compression_ratio,
            key_insights: self.extract_key_insights(),
            language_distribution: self.compute_language_distribution(),
        }
    }

    /// The bytes the provenance hash is computed over.
    fn hash_input(&self) -> (r: String)
        ensures
            r@ == trace_content(self.trace_view()),
    {
        let ghost t = self.trace_view();
        let mut s = String::new();
        let mut i: usize = 0;
        while i < self.trace.len()
            invariant
                t == self.trace_view(),
                i <= t.len(),
                s@ == trace_content(t.subrange(0, i as int)),
            decreases t.len() - i,
        {
            proof {
                assert(t.subrange(0, i + 1).drop_last() =~= t.subrange(0, i as int));
            }
            let e = &self.trace[i];
            s.append(e.input.as_str());
            s.append(e.output.as_str());
            s.append(e.language.as_str());
            s.append(e.agent.name());
            i = i + 1;
            proof {
                assert(s@ =~= trace_content(t.subrange(0, i as int)));
            }
        }
        proof {
            assert(t.subrange(0, t.len() as int) =~= t);
        }
        s
    }

    /// The uniqueness score of the session as it stands.
    pub fn compute_uniqueness_score(&self) -> (r: Ratio)
        requires
            self.wf(),
        ensures
            r == uniqueness_of(self.trace_view(), self.transitions@.len()),
            r.wf(),
    {
        let ghost t = self.trace_view();
        let counts = self.count_agent_types();
        let mut kinds: usize = 0;
        let mut k: usize = 0;
        while k < AGENT_KINDS
            invariant
                counts@.len() == 8,
                forall|m: int| 0 <= m < 8 ==> #[trigger] counts@[m] == agent_count(t, AgentType::at_spec(m as nat)),
                k <= 8,
                kinds == kinds_present(t, k as nat),
                kinds <= k,
            decreases 8 - k,
        {
            if counts[k] > 0 {
                kinds = kinds + 1;
            }
            k = k + 1;
        }
        let langs = self.compute_language_distribution().len();
        proof {
            lemma_hist_len(languages(t));
        }
        let n = self.trace.len();
        if n == 0 {
            return Ratio::new(0, 360);
        }
        let transitions = self.transitions.len();
        let m = if transitions < n { transitions } else { n };
        let n128 = n as u128;
        proof {
            assert(langs * n <= n * n) by (nonlinear_arith)
                requires
                    langs <= n,
            ;
            assert(kinds * n <= 8 * n) by (nonlinear_arith)
                requires
                    kinds <= 8,
            ;
        }
        proof {
            assert(n < 0x400_0000_0000_0000);
            assert(n * n < 0x10_0000_0000_0000_0000_0000_0000_0000) by (nonlinear_arith)
                requires
                    n < 0x400_0000_0000_0000,
            ;
        }
        let a_term = 15 * ((kinds as u128) * n128);
        let l_term = 24 * ((langs as u128) * n128);
        let num = a_term + l_term + 120 * (m as u128);
        proof {
            assert(15 * (kinds * n) == 15 * kinds * n) by (nonlinear_arith);
            assert(24 * (langs * n) == 24 * langs * n) by (nonlinear_arith);
            assert(kinds == distinct_agents(t));
            assert(langs == distinct_languages(t));
        }
        Ratio::new(num, 360 * n128)
    }

    /// Emits the provenance record of the session: the hash of its content,
    /// its agent sequence, identity, depth, uniqueness and transitions,
    /// stamped with the current time.
    pub fn emit_provenance(&self) -> (r: ProvenanceLog)
        requires
            self.wf(),
        ensures
            r.trace_hash@ == trace_hash_of(self.trace_view()),
            r.trace_hash@.len() == 64,
            forall|i: int| 0 <= i < 64 ==> crate::text::is_lower_hex_char(#[trigger] r.trace_hash@[i]),
            r.agent_sequence@ == self.trace_view().map_values(|e: EventView| e.agent),
            r.contributor_id@ == self.contributor_id@,
            r.backend_used@ == self.backend_used@,
            r.trace_depth == self.trace@.len(),
            r.uniqueness_score == uniqueness_of(self.trace_view(), self.transitions@.len()),
            transitions_view(r.transitions@) == self.transitions_spec(),
    {
        let content = self.hash_input();
        let digest = sha256(content.as_str().as_bytes());
        let trace_hash = crate::text::to_hex(digest.as_slice());
        proof {
            crate::text::lemma_hex_text_shape(digest@);
        }
        let ghost t = self.trace_view();
        let mut agent_sequence: Vec<AgentType> = Vec::new();
        let mut i: usize = 0;
        while i < self.trace.len()
            invariant
                t == self.trace_view(),
                i <= t.len(),
                agent_sequence@ == t.subrange(0, i as int).map_values(|e: EventView| e.agent),
            decreases t.len() - i,
        {
            agent_sequence.push(self.trace[i].agent);
            i = i + 1;
            proof {
                assert(agent_sequence@ =~= t.subrange(0, i as int).map_values(|e: EventView| e.agent));
            }
        }
        proof {
            assert(t.subrange(0, t.len() as int) =~= t);
        }
        ProvenanceLog {
            trace_hash,
            agent_sequence,
            contributor_id: copy_string(&self.contributor_id),
            backend_used: copy_string(&self.backend_used),
            timestamp: now_millis(),
            trace_depth: self.trace.len(),
            uniqueness_score: self.compute_uniqueness_score(),
            transitions: copy_transitions(&self.transitions),
        }
    }
}

/// Index of the entry of `h` among `0..i`, not in `ex`, with the largest
/// count; the earliest among equal counts; -1 when there is none.
pub open spec fn best_upto(h: Seq<(Seq<char>, nat)>, ex: Seq<int>, i: nat) -> int
    decreases i,
{
    if i == 0 {
        -1
    } else {
        let j = i - 1;
        let b = best_upto(h, ex, (i - 1) as nat);
        if ex.contains(j) {
            b
        } else if b < 0 || h[j].1 > h[b].1 {
            j
        } else {
            b
        }
    }
}

/// Indices of the `k` most frequent entries, most frequent first; among
/// equal counts the entry seen first comes first.
pub open spec fn top_indices(h: Seq<(Seq<char>, nat)>, k: nat) -> Seq<int>
    decreases k,
{
    if k == 0 {
        Seq::empty()
    } else {
        let c = top_indices(h, (k - 1) as nat);
        let b = best_upto(h, c, h.len());
        if b < 0 {
            c
        } else {
            c.push(b)
        }
    }
}

/// The (up to) three most frequent languages of a histogram.
pub open spec fn preferred_of(h: Seq<(Seq<char>, nat)>) -> Seq<Seq<char>> {
    top_indices(h, 3).map_values(|i: int| h[i].0)
}

proof fn lemma_best_range(h: Seq<(Seq<char>, nat)>, ex: Seq<int>, i: nat)
    requires
        i <= h.len(),
    ensures
        -1 <= best_upto(h, ex, i) < i,
    decreases i,
{
    if i > 0 {
        lemma_best_range(h, ex, (i - 1) as nat);
    }
}

proof fn lemma_top_range(h: Seq<(Seq<char>, nat)>, k: nat)
    ensures
        top_indices(h, k).len() <= k,
        forall|j: int| 0 <= j < top_indices(h, k).len() ==> 0 <= #[trigger] top_indices(h, k)[j] < h.len(),
    decreases k,
{
    if k > 0 {
        lemma_top_range(h, (k - 1) as nat);
        lemma_best_range(h, top_indices(h, (k - 1) as nat), h.len());
    }
}

proof fn lemma_best_props(h: Seq<(Seq<char>, nat)>, ex: Seq<int>, i: nat)
    requires
        i <= h.len(),
    ensures
        best_upto(h, ex, i) >= 0 ==> !ex.contains(best_upto(h, ex, i)),
        best_upto(h, ex, i) >= 0 ==> forall|j: int| 0 <= j < i && !ex.contains(j) ==> h[j].1 <= h[best_upto(h, ex, i)].1,
        best_upto(h, ex, i) < 0 ==> forall|j: int| 0 <= j < i ==> ex.contains(j),
    decreases i,
{
    if i > 0 {
        lemma_best_props(h, ex, (i - 1) as nat);
        lemma_best_range(h, ex, (i - 1) as nat);
    }
}

/// The preferred languages, stated directly: at most three distinct entries
/// of the histogram, in non-increasing order of count; every entry left out
/// counts no more than the last one chosen; fewer than three are chosen only
/// when every entry is.
pub proof fn lemma_top_indices_direct(h: Seq<(Seq<char>, nat)>, k: nat)
    ensures
        top_indices(h, k).len() <= k,
        forall|a: int| 0 <= a < top_indices(h, k).len() ==> 0 <= #[trigger] top_indices(h, k)[a] < h.len(),
        forall|a: int, b: int| 0 <= a < b < top_indices(h, k).len() ==> top_indices(h, k)[a] != top_indices(h, k)[b]
            && h[top_indices(h, k)[a]].1 >= h[top_indices(h, k)[b]].1,
        top_indices(h, k).len() > 0 ==> forall|j: int| 0 <= j < h.len() && !top_indices(h, k).contains(j)
            ==> h[j].1 <= h[top_indices(h, k).last()].1,
        top_indices(h, k).len() < k ==> forall|j: int| 0 <= j < h.len() ==> top_indices(h, k).contains(j),
    decreases k,
{
    if k > 0 {
        let c = top_indices(h, (k - 1) as nat);
        lemma_top_indices_direct(h, (k - 1) as nat);
        lemma_best_props(h, c, h.len());
        lemma_best_range(h, c, h.len());
        let b = best_upto(h, c, h.len());
        if b >= 0 {
            let n = c.push(b);
            assert forall|j: int| 0 <= j < h.len() && !n.contains(j) implies h[j].1 <= h[n.last()].1 by {
                assert(!c.contains(j)) by {
                    if c.contains(j) {
                        let q = choose|q: int| 0 <= q < c.len() && c[q] == j;
                        assert(n[q] == j);
                    }
                }
            }
            assert forall|a: int, bb: int| 0 <= a < bb < n.len() implies n[a] != n[bb] && h[n[a]].1 >= h[n[bb]].1 by {
                if bb == n.len() - 1 {
                    assert(c.contains(c[a]));
                    assert(!c.contains(b));
                    assert(c.len() > 0);
                    if a < c.len() - 1 {
                        assert(h[c[a]].1 >= h[c.last()].1);
                    }
                }
            }
            assert forall|j: int| 0 <= j < h.len() && top_indices(h, k).len() < k implies top_indices(h, k).contains(j) by {
                assert(c.len() < k - 1);
                assert(c.contains(j));
                let q = choose|q: int| 0 <= q < c.len() && c[q] == j;
                assert(n[q] == j);
            }
        }
    }
}

fn contains_index(v: &Vec<usize>, x: usize) -> (r: bool)
    ensures
        r == v@.map_values(|i: usize| i as int).contains(x as int),
{
    let mut j: usize = 0;
    while j < v.len()
        invariant
            j <= v@.len(),
            forall|m: int| 0 <= m < j ==> v@[m] != x,
        decreases v@.len() - j,
    {
        if v[j] == x {
            proof {
                assert(v@.map_values(|i: usize| i as int)[j as int] == x as int);
            }
            return true;
        }
        j = j + 1;
    }
    proof {
        let vi = v@.map_values(|i: usize| i as int);
        if vi.contains(x as int) {
            let m = choose|m: int| 0 <= m < vi.len() && vi[m] == x as int;
            assert(v@[m] == x);
        }
    }
    false
}

impl MetaAgent {
    /// The three most frequent languages of the current trace, most frequent
    /// first; among equal counts the language seen first comes first.
    pub fn top_languages(&self) -> (r: Vec<String>)
        requires
            self.wf(),
        ensures
            strings_view(r@) == preferred_of(hist_of(languages(self.trace_view()))),
    {
        let hist = self.compute_language_distribution();
        let ghost h = hist@;
        let mut chosen: Vec<usize> = Vec::new();
        let mut round: usize = 0;
        while round < 3
            invariant
                h == hist@,
                h.len() == hist.entries@.len(),
                round <= 3,
                chosen@.map_values(|i: usize| i as int) == top_indices(h, round as nat),
            decreases 3 - round,
        {
            let ghost c = top_indices(h, round as nat);
            let mut has = false;
            let mut b: usize = 0;
            let mut j: usize = 0;
            while j < hist.entries.len()
                invariant
                    h == hist@,
                    h.len() == hist.entries@.len(),
                    j <= h.len(),
                    c == chosen@.map_values(|i: usize| i as int),
                    (if has { b as int } else { -1int }) == best_upto(h, c, j as nat),
                    has ==> b < j,
                decreases h.len() - j,
            {
                let excluded = contains_index(&chosen, j);
                proof {
                    lemma_best_range(h, c, j as nat);
                    assert(h[j as int].1 == hist.entries@[j as int].1);
                    if has {
                        assert(h[b as int].1 == hist.entries@[b as int].1);
                    }
                }
                let better = if has { hist.entries[j].1 > hist.entries[b].1 } else { true };
                if !excluded && better {
                    has = true;
                    b = j;
                }
                j = j + 1;
            }
            if has {
                let ghost before = chosen@;
                chosen.push(b);
                proof {
                    assert(chosen@.map_values(|i: usize| i as int) =~= before.map_values(|i: usize| i as int).push(b as int));
                }
            }
            round = round + 1;
        }
        proof {
            lemma_top_range(h, 3);
        }
        let mut r: Vec<String> = Vec::new();
        let mut k: usize = 0;
        while k < chosen.len()
            invariant
                h == hist@,
                h.len() == hist.entries@.len(),
                chosen@.map_values(|i: usize| i as int) == top_indices(h, 3),
                forall|j: int| 0 <= j < top_indices(h, 3).len() ==> 0 <= #[trigger] top_indices(h, 3)[j] < h.len(),
                k <= chosen@.len(),
                strings_view(r@) == top_indices(h, 3).subrange(0, k as int).map_values(|i: int| h[i].0),
            decreases chosen@.len() - k,
        {
            let x = chosen[k];
            proof {
                assert(top_indices(h, 3)[k as int] == x as int);
                assert(h[x as int].0 == hist.entries@[x as int].0@);
            }
            let ghost before = r@;
            r.push(copy_string(&hist.entries[x].0));
            proof {
                assert(strings_view(r@) =~= strings_view(before).push(h[x as int].0));
                assert(top_indices(h, 3).subrange(0, k + 1).map_values(|i: int| h[i].0) =~= top_indices(h, 3).subrange(0, k as int).map_values(|i: int| h[i].0).push(h[x as int].0));
            }
            k = k + 1;
        }
        proof {
            assert(top_indices(h, 3).subrange(0, chosen@.len() as int) =~= top_indices(h, 3));
        }
        r
    }

    /// Counts one more session in the profile: the running mean depth takes
    /// in the current depth (`(avg * (n - 1) + depth) / n`, `n` the new
    /// count, kept as an exact fraction in lowest terms, so its denominator
    /// stays a divisor of the first one times `n`) and the preferred languages become
    /// the three most frequent of the current trace.
    pub fn update_profile(&mut self)
        requires
            old(self).wf(),
            old(self).profile.total_traces < usize::MAX,
            old(self).profile.avg_trace_depth.wf(),
            old(self).profile.avg_trace_depth.num * old(self).profile.total_traces
                + old(self).trace@.len() * old(self).profile.avg_trace_depth.den <= u128::MAX,
            old(self).profile.avg_trace_depth.den * (old(self).profile.total_traces + 1) <= u128::MAX,
        ensures
            final(self).wf(),
            final(self).profile.total_traces == old(self).profile.total_traces + 1,
            final(self).profile.avg_trace_depth.same_value(mean_update(
                old(self).profile.avg_trace_depth,
                old(self).profile.total_traces as nat + 1,
                old(self).trace@.len(),
            )),
            final(self).profile.avg_trace_depth.den <= old(self).profile.avg_trace_depth.den * (old(self).profile.total_traces + 1),
            final(self).profile.avg_trace_depth.wf(),
            strings_view(final(self).profile.preferred_languages@) == preferred_of(
                hist_of(languages(old(self).trace_view())),
            ),
            final(self).profile.contributor_id == old(self).profile.contributor_id,
            final(self).profile.expertise_domains == old(self).profile.expertise_domains,
            final(self).profile.reasoning_style == old(self).profile.reasoning_style,
            final(self).trace == old(self).trace,
            final(self).transitions == old(self).transitions,
            final(self).contributor_id == old(self).contributor_id,
            final(self).backend_used == old(self).backend_used,
            final(self).session_id == old(self).session_id,
            final(self).current_agent == old(self).current_agent,
    {
        let n = self.profile.total_traces + 1;
        let old_avg = self.profile.avg_trace_depth;
        let depth = self.trace.len() as u128;
        proof {
            assert(old_avg.den * n > 0) by (nonlinear_arith)
                requires
                    old_avg.den > 0,
                    n > 0,
            ;
        }
        let num = old_avg.num * ((n - 1) as u128) + depth * old_avg.den;
        let den = old_avg.den * (n as u128);
        self.profile.total_traces = n;
        self.profile.avg_trace_depth = Ratio::new(num, den).reduced();
        self.profile.preferred_languages = self.top_languages();
    }
}

/// The mean `avg` of `n - 1` values, with `x` taken in: `(avg * (n - 1) + x) / n`.
pub open spec fn mean_update(avg: Ratio, n: nat, x: nat) -> Ratio {
    Ratio { num: (avg.num * (n - 1) + x * avg.den) as u128, den: (avg.den * n) as u128 }
}

} // verus!
