use will_done::retrospective::contains_text;
use will_done::retrospective::is_ranked_before;
use will_done::retrospective::is_text_less;
use will_done::retrospective::model_score;
use will_done::retrospective::models_to_try;
use will_done::retrospective::period_description;
use will_done::retrospective::supports_system_instruction;
use will_done::retrospective::system_prompt;
use will_done::retrospective::user_content;
use will_done::retrospective::GeminiModel;

fn model(name: &str, methods: &[&str]) -> GeminiModel {
    GeminiModel {
        name: name.to_string(),
        supported_generation_methods: methods.iter().map(|m| m.to_string()).collect(),
        thinking: false,
    }
}

#[test]
fn a_text_contains_what_stands_in_it() {
    let texts = ["", "a", "ab", "flash", "models/gemini-2.0-flash-lite", "aab", "aaab", "\u{e9}t\u{e9}"];
    let needles = ["", "a", "b", "ab", "aab", "flash", "flash-lite", "lite", "pro", "\u{e9}", "t\u{e9}", "x"];
    for hay in texts {
        for needle in needles {
            assert_eq!(contains_text(hay, needle), hay.contains(needle), "{:?} in {:?}", needle, hay);
        }
    }
}

#[test]
fn texts_are_ordered_as_the_dictionary_orders_them() {
    let texts = ["", "a", "A", "ab", "abc", "abd", "b", "ba", "\u{e9}", "z", "zz", "\u{10348}", "\u{ffff}"];
    for a in texts {
        for b in texts {
            assert_eq!(is_text_less(a, b), a < b, "{:?} < {:?}", a, b);
        }
    }
}

#[test]
fn lighter_models_score_higher() {
    assert_eq!(model_score("models/gemini-2.0-flash-lite"), 3);
    assert_eq!(model_score("models/gemini-2.0-flash"), 2);
    assert_eq!(model_score("models/gemini-1.5-pro"), 1);
    assert_eq!(model_score("models/gemini-ultra"), 0);
    assert_eq!(model_score("models/approx"), 1);
    assert_eq!(model_score(""), 0);
    assert!(is_ranked_before("x-flash-lite", "x-flash"));
    assert!(!is_ranked_before("x-flash", "x-flash-lite"));
    assert!(is_ranked_before("gemini-2.0-flash", "gemini-1.5-flash"));
    assert!(!is_ranked_before("gemini-1.5-flash", "gemini-2.0-flash"));
    assert!(!is_ranked_before("gemini-1.5-flash", "gemini-1.5-flash"));
}

#[test]
fn newer_models_take_their_instructions_apart() {
    assert!(supports_system_instruction("models/gemini-1.5-flash"));
    assert!(supports_system_instruction("models/gemini-2.0-pro"));
    assert!(supports_system_instruction("gemini-2.5"));
    assert!(!supports_system_instruction("models/gemini-1.0-pro"));
    assert!(!supports_system_instruction("models/gemini-3.0"));
    assert!(!supports_system_instruction(""));
}

#[test]
fn the_models_to_try_are_the_remembered_one_and_then_the_lightest_on_offer() {
    let offered = vec![
        model("models/gemini-1.5-pro", &["generateContent"]),
        model("models/gemini-1.5-flash", &["countTokens", "generateContent"]),
        model("models/embedding-001", &["embedContent"]),
        model("models/gemini-2.0-flash", &["generateContent"]),
        model("models/gemini-2.0-flash-lite", &["generateContent"]),
        model("models/gemini-2.0-pro", &["generateContent"]),
        model("models/gemini-1.5-flash", &["generateContent"]),
        model("models/other", &["generateContent"]),
        model("models/none", &[]),
    ];
    assert_eq!(
        models_to_try(Some("models/gemini-2.0-flash".to_string()), &offered),
        vec![
            "models/gemini-2.0-flash",
            "models/gemini-2.0-flash-lite",
            "models/gemini-1.5-flash",
            "models/gemini-2.0-pro",
            "models/gemini-1.5-pro",
            "models/other",
        ]
    );
    assert_eq!(
        models_to_try(None, &offered),
        vec![
            "models/gemini-2.0-flash-lite",
            "models/gemini-2.0-flash",
            "models/gemini-1.5-flash",
            "models/gemini-2.0-pro",
            "models/gemini-1.5-pro",
            "models/other",
        ]
    );
    assert_eq!(models_to_try(Some("cached".to_string()), &vec![]), vec!["cached"]);
    assert_eq!(models_to_try(None, &vec![]), Vec::<String>::new());
}

#[test]
fn ranking_agrees_with_a_stable_sort() {
    let names = [
        "b-pro", "a-flash", "c", "a-flash-lite", "a-pro", "zz", "b-flash", "a", "b-flash-lite",
        "a-flash", "pro", "flash", "c",
    ];
    let offered: Vec<GeminiModel> = names.iter().map(|n| model(n, &["generateContent"])).collect();
    let mut expected: Vec<String> = names.iter().map(|n| n.to_string()).collect();
    expected.sort_by(|a, b| {
        let score = |name: &str| {
            if name.contains("flash-lite") {
                3
            } else if name.contains("flash") {
                2
            } else if name.contains("pro") {
                1
            } else {
                0
            }
        };
        let s_a = score(a);
        let s_b = score(b);
        if s_a != s_b {
            s_b.cmp(&s_a)
        } else {
            b.cmp(a)
        }
    });
    expected.dedup();
    assert_eq!(models_to_try(None, &offered), expected);
}

#[test]
fn the_request_is_worded_by_kind_language_and_period() {
    let daily = system_prompt("DAILY", "ko");
    assert!(daily.starts_with("You are an expert productivity coach. Analyze the user's completed tasks for today."));
    assert!(daily.ends_with("entirely in the user's requested language: [Korean]."));
    assert!(daily.contains("\n\nCRITICAL RULE: Regardless of the instructions above"));
    let weekly = system_prompt("WEEKLY", "en");
    assert!(weekly.starts_with("You are an expert productivity coach. Review the user's completed tasks for the past week."));
    assert!(weekly.ends_with("[English]."));
    assert!(system_prompt("MONTHLY", "fr").contains("over the past month"));
    assert!(system_prompt("MONTHLY", "fr").ends_with("[English]."));
    assert_eq!(
        system_prompt("YEARLY", "ko"),
        "You are an expert productivity coach helping a user write a professional retrospective.\n\nCRITICAL RULE: Regardless of the instructions above, you MUST generate the final retrospective output entirely in the user's requested language: [Korean]."
    );
    assert_eq!(period_description("2026-03-01", "2026-03-01"), "Daily summary for 2026-03-01");
    assert_eq!(
        period_description("2026-03-01", "2026-03-07"),
        "Summary for the period from 2026-03-01 to 2026-03-07"
    );
    assert_eq!(
        user_content("P", "R", "S"),
        "**Period**: P\n\n**User Role/Intro**: R\n\n**Completed Tasks**:\nS"
    );
}
