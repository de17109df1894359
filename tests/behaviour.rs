use meta_trace::{AgentType, Leaderboard, MetaAgent, RankingCriteria, Ratio};

fn session(id: &str, events: &[(AgentType, &str, &str, &str, u64)]) -> MetaAgent {
    let mut meta = MetaAgent::new(id, "backend");
    for (agent, input, output, language, confidence) in events {
        meta.log_event(*agent, input, output, language, *confidence);
    }
    meta
}

fn depth_session(id: &str, depth: usize) -> MetaAgent {
    let mut meta = MetaAgent::new(id, "backend");
    for _ in 0..depth {
        meta.log_event(AgentType::Reasoning, "input", "output", "en", 900);
    }
    meta
}

#[test]
fn transitions_count_agent_changes() {
    let meta = session("u", &[
        (AgentType::Meta, "a", "b", "en", 500),
        (AgentType::Meta, "a", "b", "en", 500),
        (AgentType::Action, "a", "b", "en", 500),
        (AgentType::Meta, "a", "b", "en", 500),
        (AgentType::Meta, "a", "b", "en", 500),
    ]);
    assert_eq!(meta.get_trace_depth(), 5);
    assert_eq!(meta.get_transition_count(), 2);
    assert_eq!(meta.transitions[0].from_agent, AgentType::Meta);
    assert_eq!(meta.transitions[0].to_agent, AgentType::Action);
    assert_eq!(meta.transitions[0].reason, "natural_flow");
    assert_eq!(meta.current_agent, Some(AgentType::Meta));
}

#[test]
fn transition_score_is_mean_of_last_three() {
    let meta = session("u", &[
        (AgentType::Meta, "a", "b", "en", 100),
        (AgentType::Meta, "a", "b", "en", 200),
        (AgentType::Meta, "a", "b", "en", 600),
        (AgentType::Meta, "a", "b", "en", 700),
        (AgentType::Action, "a", "b", "en", 0),
    ]);
    let score = meta.transitions[0].transition_score;
    assert_eq!(score, Ratio::new(1500, 3000));
}

#[test]
fn transition_score_on_empty_trace_is_one() {
    let mut meta = MetaAgent::new("u", "b");
    meta.track_transition(AgentType::Meta, AgentType::Action, "manual");
    assert_eq!(meta.transitions[0].transition_score, Ratio::new(1, 1));
    assert_eq!(meta.transitions[0].reason, "manual");
}

#[test]
fn end_to_end_three_agents() {
    let meta = session("u", &[
        (AgentType::Classification, "input1", "output1", "en", 900),
        (AgentType::Reasoning, "input2", "output2", "en", 920),
        (AgentType::Retrieval, "input3", "output3", "en", 880),
    ]);
    assert_eq!(meta.get_transition_count(), 2);
    assert_eq!(meta.get_trace_depth(), 3);
    let p = meta.emit_provenance();
    assert_eq!(p.trace_hash.len(), 64);
    assert!(p.trace_hash.chars().all(|c| c.is_ascii_digit() || ('a'..='f').contains(&c)));
    // (3/8 + 1/5 + 2/3) / 3
    assert_eq!(p.uniqueness_score, Ratio::new(447, 1080));
    let v = p.uniqueness_score.num as f64 / p.uniqueness_score.den as f64;
    assert!((v - (3.0 / 8.0 + 1.0 / 5.0 + 2.0 / 3.0) / 3.0).abs() < 1e-12);
    assert_eq!(p.agent_sequence, vec![AgentType::Classification, AgentType::Reasoning, AgentType::Retrieval]);
}

#[test]
fn identical_events_hash_identically() {
    let a = session("user1", &[(AgentType::Reasoning, "test", "result", "en", 900)]).emit_provenance();
    let b = session("user2", &[(AgentType::Reasoning, "test", "result", "en", 100)]).emit_provenance();
    let c = session("user3", &[(AgentType::Reasoning, "different", "result", "en", 900)]).emit_provenance();
    assert_eq!(a.trace_hash, "dd49bb22ea5f27343a2db62795f73b3622dc1683ab3b7b67325830c4519fd47e");
    assert_eq!(a.trace_hash, b.trace_hash);
    assert_eq!(c.trace_hash, "c8c36eab75f534a19aebfb88f20e35f759de967adf0856b0d533b36f1758e2f8");
    assert_ne!(a.trace_hash, c.trace_hash);
}

#[test]
fn hash_covers_every_field_in_order() {
    let base = session("u", &[
        (AgentType::Classification, "input1", "output1", "en", 900),
        (AgentType::Reasoning, "input2", "output2", "en", 920),
    ]).emit_provenance();
    assert_eq!(base.trace_hash, "8bb2b2eaa6c738afa752dbf76a38b7f26657f5dda09a07021ac59e852a8c0579");
    let changed = [
        session("u", &[(AgentType::Classification, "input1", "output1", "en", 900), (AgentType::Reasoning, "inpuT2", "output2", "en", 920)]),
        session("u", &[(AgentType::Classification, "input1", "output1", "en", 900), (AgentType::Reasoning, "input2", "output3", "en", 920)]),
        session("u", &[(AgentType::Classification, "input1", "output1", "en", 900), (AgentType::Reasoning, "input2", "output2", "fr", 920)]),
        session("u", &[(AgentType::Classification, "input1", "output1", "en", 900), (AgentType::Synthesis, "input2", "output2", "en", 920)]),
        session("u", &[(AgentType::Reasoning, "input2", "output2", "en", 920), (AgentType::Classification, "input1", "output1", "en", 900)]),
    ];
    for s in changed.iter() {
        assert_ne!(s.emit_provenance().trace_hash, base.trace_hash);
    }
}

#[test]
fn empty_trace_hash_and_scores() {
    let meta = MetaAgent::new("u", "b");
    let p = meta.emit_provenance();
    assert_eq!(p.trace_hash, "e3b0c44298fc1c149afbf4c8996fb92427ae41e4649b934ca495991b7852b855");
    assert_eq!(p.uniqueness_score.num, 0);
    let f = meta.fold_memory();
    assert_eq!(f.compression_ratio, Ratio::new(1, 1));
    assert!(f.key_insights.is_empty());
    assert_eq!(f.language_distribution.len(), 0);
}

#[test]
fn uniqueness_can_exceed_one_with_many_languages() {
    let kinds = [
        AgentType::Classification, AgentType::Reasoning, AgentType::Action, AgentType::Retrieval,
        AgentType::Meta, AgentType::Synthesis, AgentType::Validation, AgentType::Translation,
    ];
    let langs = ["en", "id", "zh", "es", "fr", "de", "ja", "ko"];
    let mut meta = MetaAgent::new("u", "b");
    for i in 0..8 {
        meta.log_event(kinds[i], "in", "out", langs[i], 900);
    }
    let p = meta.emit_provenance();
    // (8/8 + 8/5 + 7/8) / 3, above one: language diversity is not capped
    assert_eq!(p.uniqueness_score, Ratio::new(3336, 2880));
    assert!(p.uniqueness_score.num > p.uniqueness_score.den);
}

#[test]
fn summary_and_insights_text() {
    let mut meta = MetaAgent::new("u", "b");
    meta.session_id = "session_7".to_string();
    let agents = [AgentType::Meta, AgentType::Action];
    let langs = ["en", "fr", "en"];
    for i in 0..7 {
        meta.log_event(agents[i % 2], "ab", "cd", langs[i % 3], if i == 0 { 800 } else { 801 });
    }
    let f = meta.fold_memory();
    assert_eq!(
        f.summary,
        "Session session_7 with 7 reasoning steps across 2 languages. Agent distribution: {Action: 3, Meta: 4}. Transitions: 6"
    );
    assert_eq!(f.key_insights, vec![
        "6 high-confidence reasoning steps".to_string(),
        "Multilingual reasoning across 2 languages".to_string(),
        "Complex reasoning with 6 agent transitions".to_string(),
    ]);
    assert_eq!(f.compression_ratio, Ratio::new(f.summary.len() as u128, 28));
    assert_eq!(f.language_distribution.get("en"), Some(5));
    assert_eq!(f.language_distribution.get("fr"), Some(2));
    assert_eq!(f.language_distribution.get("de"), None);
    assert_eq!(f.session_id, "session_7");
}

#[test]
fn profile_prefers_most_frequent_languages() {
    let meta_events = [
        (AgentType::Meta, "a", "b", "de", 500),
        (AgentType::Meta, "a", "b", "fr", 500),
        (AgentType::Meta, "a", "b", "fr", 500),
        (AgentType::Meta, "a", "b", "en", 500),
        (AgentType::Meta, "a", "b", "es", 500),
        (AgentType::Meta, "a", "b", "en", 500),
        (AgentType::Meta, "a", "b", "en", 500),
    ];
    let mut meta = session("u", &meta_events);
    meta.update_profile();
    // ties between de and es go to the language seen first
    assert_eq!(meta.profile.preferred_languages, vec!["en".to_string(), "fr".to_string(), "de".to_string()]);
    meta.update_profile();
    assert_eq!(meta.profile.total_traces, 2);
    assert_eq!(meta.profile.avg_trace_depth.num as f64 / meta.profile.avg_trace_depth.den as f64, 7.0);
}

#[test]
fn leaderboard_mean_depth_is_exact() {
    let mut lb = Leaderboard::new();
    for d in [3usize, 4, 8] {
        lb.add_entry(depth_session("alice", d).emit_provenance(), vec!["en".to_string()]);
    }
    let e = &lb.entries[0];
    assert_eq!(e.total_submissions, 3);
    assert_eq!(e.avg_trace_depth, Ratio::new(15, 3));
    assert_eq!(e.trace_depth, 8);
}

#[test]
fn leaderboard_merges_submissions() {
    let mut lb = Leaderboard::new();
    let mut first = depth_session("alice", 6).emit_provenance();
    first.backend_used = "old".to_string();
    lb.add_entry(first, vec!["en".to_string(), "fr".to_string()]);
    let second = session("alice", &[
        (AgentType::Meta, "a", "b", "en", 500),
        (AgentType::Action, "a", "b", "zh", 500),
    ]).emit_provenance();
    let hash = second.trace_hash.clone();
    let uniq = second.uniqueness_score;
    lb.add_entry(second, vec!["zh".to_string(), "en".to_string(), "de".to_string()]);
    assert_eq!(lb.total_contributors(), 1);
    let e = &lb.entries[0];
    assert_eq!(e.trace_depth, 6);
    assert_eq!(e.provenance_hash, hash);
    assert_eq!(e.backend_used, "backend");
    assert_eq!(e.uniqueness_score, uniq);
    assert_eq!(e.languages_used, vec!["en".to_string(), "fr".to_string(), "zh".to_string(), "de".to_string()]);
    assert!(lb.get_contributor_history("bob").is_none());
}

#[test]
fn deeper_contributor_ranks_first() {
    let mut lb = Leaderboard::new();
    lb.add_entry(depth_session("shallow", 5).emit_provenance(), vec![]);
    lb.add_entry(depth_session("deep", 10).emit_provenance(), vec![]);
    let ranked = lb.rank_by_depth();
    assert_eq!(ranked[0].contributor_id, "deep");
    assert_eq!(ranked[1].contributor_id, "shallow");
}

#[test]
fn top_three_of_five_in_order() {
    let mut lb = Leaderboard::new();
    for (i, d) in [4usize, 9, 1, 7, 3].iter().enumerate() {
        lb.add_entry(depth_session(&format!("user{}", i), *d).emit_provenance(), vec![]);
    }
    let top = lb.get_top_n(3, RankingCriteria::TraceDepth);
    let ids: Vec<&str> = top.iter().map(|e| e.contributor_id.as_str()).collect();
    assert_eq!(ids, vec!["user1", "user3", "user0"]);
    assert_eq!(lb.get_top_n(10, RankingCriteria::TraceDepth).len(), 5);
}

#[test]
fn other_rankings_and_ranks() {
    let mut lb = Leaderboard::new();
    lb.add_entry(depth_session("a", 2).emit_provenance(), vec![]);
    lb.add_entry(depth_session("b", 2).emit_provenance(), vec![]);
    lb.add_entry(depth_session("b", 8).emit_provenance(), vec![]);
    let by_subs = lb.rank_by_submissions();
    assert_eq!(by_subs[0].contributor_id, "b");
    let by_avg = lb.rank_by_avg_depth();
    assert_eq!(by_avg[0].contributor_id, "b");
    let by_uniq = lb.rank_by_uniqueness();
    assert_eq!(by_uniq.len(), 2);
    lb.update_ranks(RankingCriteria::TotalSubmissions);
    assert_eq!(lb.entries[0].rank, 2);
    assert_eq!(lb.entries[1].rank, 1);
    lb.apply_ranking(&vec![0, 1]);
    assert_eq!(lb.entries[0].rank, 1);
    assert_eq!(lb.entries[1].rank, 2);
    assert_eq!(lb.total_submissions(), 3);
}

#[test]
fn ratio_comparison() {
    assert_eq!(Ratio::new(1, 3).compare(&Ratio::new(2, 6)), 0);
    assert_eq!(Ratio::new(2, 3).compare(&Ratio::new(3, 5)), 1);
    assert_eq!(Ratio::new(u128::MAX, u128::MAX - 1).compare(&Ratio::new(u128::MAX - 1, u128::MAX - 2)), -1);
    assert!(Ratio::new(5, 1).is_greater(&Ratio::new(49, 10)));
}

#[test]
fn agent_names() {
    assert_eq!(AgentType::Classification.to_string(), "Classification");
    assert_eq!(AgentType::Translation.name(), "Translation");
}

#[test]
fn truncate_marks_cut() {
    assert_eq!(meta_trace::truncate("short", 10), "short");
    assert_eq!(meta_trace::truncate("abcdefghijkl", 8), "abcde...");
    assert_eq!(meta_trace::truncate("abc", 3), "abc");
}

#[test]
fn ties_keep_arrival_order_and_ranks_match() {
    let mut lb = Leaderboard::new();
    for id in ["c", "a", "b"] {
        lb.add_entry(depth_session(id, 4).emit_provenance(), vec![]);
    }
    lb.add_entry(depth_session("d", 9).emit_provenance(), vec![]);
    let ids: Vec<String> = lb.rank_by_depth().iter().map(|e| e.contributor_id.clone()).collect();
    assert_eq!(ids, vec!["d", "c", "a", "b"]);
    let ids: Vec<String> = lb.rank_by_avg_depth().iter().map(|e| e.contributor_id.clone()).collect();
    assert_eq!(ids, vec!["d", "c", "a", "b"]);
    let top: Vec<String> = lb.get_top_n(2, RankingCriteria::TotalSubmissions).iter().map(|e| e.contributor_id.clone()).collect();
    assert_eq!(top, vec!["c", "a"]);
    lb.update_ranks(RankingCriteria::TraceDepth);
    let ranks: Vec<usize> = lb.entries.iter().map(|e| e.rank).collect();
    assert_eq!(ranks, vec![2, 3, 4, 1]);
}

#[test]
fn profile_mean_survives_many_sessions() {
    let profile = meta_trace::ContributorProfile {
        contributor_id: "u".to_string(),
        preferred_languages: vec![],
        expertise_domains: vec![],
        reasoning_style: "analytical".to_string(),
        total_traces: 5,
        avg_trace_depth: Ratio::new(25, 2),
    };
    let mut meta = MetaAgent::with_profile("u", "b", profile);
    for _ in 0..3 {
        meta.log_event(AgentType::Meta, "a", "b", "en", 500);
    }
    for _ in 0..200 {
        meta.update_profile();
    }
    assert_eq!(meta.profile.total_traces, 205);
    // (12.5 * 5 + 3 * 200) / 205 = 265 / 82
    assert_eq!(meta.profile.avg_trace_depth, Ratio::new(265, 82));
}

#[test]
fn truncate_keeps_short_strings_with_small_limits() {
    assert_eq!(meta_trace::truncate("ab", 2), "ab");
    assert_eq!(meta_trace::truncate("", 0), "");
}

#[test]
fn truncate_counts_bytes() {
    assert_eq!(meta_trace::truncate("\u{e9}\u{e9}", 3), "...");
    assert_eq!(meta_trace::truncate("\u{e9}\u{e9}", 4), "\u{e9}\u{e9}");
    assert_eq!(meta_trace::truncate("a\u{e9}bcdef", 6), "a\u{e9}...");
}

#[test]
fn compression_counts_bytes() {
    let mut meta = MetaAgent::new("u", "b");
    meta.log_event(AgentType::Reasoning, "\u{4e2d}\u{6587}", "", "zh", 900);
    let f = meta.fold_memory();
    assert_eq!(f.compression_ratio, Ratio::new(f.summary.len() as u128, 6));
}

#[test]
fn events_carry_a_clock_reading() {
    let mut meta = MetaAgent::new("u", "b");
    meta.log_event(AgentType::Reasoning, "a", "b", "en", 900);
    assert!(meta.trace[0].timestamp > 1_600_000_000_000);
    assert!(meta.session_id.starts_with("session_"));
}
