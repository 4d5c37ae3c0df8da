//! The rules around a retrospective request: which models to ask and in
//! what order, and how the request is worded. The request itself is sent
//! by the shell.

use vstd::prelude::*;
use vstd::string::*;
use crate::daytime::chars_of;
use crate::models::text_is;

verus! {

/// A model as the service offers it.
#[derive(Debug)]
pub struct GeminiModel {
    pub name: String,
    pub supported_generation_methods: Vec<String>,
    pub thinking: bool,
}

/// Whether `needle` stands in `hay` at position `i`.
pub open spec fn occurs_at(hay: Seq<char>, needle: Seq<char>, i: int) -> bool {
    0 <= i && i + needle.len() <= hay.len() && hay.subrange(i, i + needle.len()) == needle
}

/// Whether `needle` stands somewhere in `hay`.
pub open spec fn contains_text_spec(hay: Seq<char>, needle: Seq<char>) -> bool {
    exists|i: int| occurs_at(hay, needle, i)
}

/// Whether one text contains another.
pub fn contains_text(hay: &str, needle: &str) -> (found: bool)
    ensures
        found == contains_text_spec(hay@, needle@),
{
    let h = chars_of(hay);
    let n = chars_of(needle);
    if n.len() > h.len() {
        assert forall|i: int| !occurs_at(hay@, needle@, i) by {}
        return false;
    }
    let last: usize = h.len() - n.len();
    let mut i: usize = 0;
    while i <= last
        invariant
            h@ == hay@,
            n@ == needle@,
            n.len() <= h.len(),
            last == h.len() - n.len(),
            i <= last + 1,
            forall|j: int| 0 <= j < i ==> !occurs_at(hay@, needle@, j),
        decreases last + 1 - i,
    {
        let mut k: usize = 0;
        while k < n.len() && h[i + k] == n[k]
            invariant
                h@ == hay@,
                n@ == needle@,
                i <= last,
                last == h.len() - n.len(),
                k <= n.len(),
                forall|t: int| 0 <= t < k ==> h[i + t] == n[t],
            decreases n.len() - k,
        {
            k = k + 1;
        }
        if k == n.len() {
            assert(hay@.subrange(i as int, i + n.len()) =~= needle@);
            assert(occurs_at(hay@, needle@, i as int));
            return true;
        }
        assert(!occurs_at(hay@, needle@, i as int)) by {
            if occurs_at(hay@, needle@, i as int) {
                assert(hay@.subrange(i as int, i + n.len())[k as int] == needle@[k as int]);
            }
        }
        i = i + 1;
    }
    assert forall|j: int| !occurs_at(hay@, needle@, j) by {}
    false
}

/// How light a model is by its name: the lighter it is, the sooner it is
/// asked.
pub open spec fn model_score_spec(name: Seq<char>) -> int {
    if contains_text_spec(name, "flash-lite"@) {
        3
    } else if contains_text_spec(name, "flash"@) {
        2
    } else if contains_text_spec(name, "pro"@) {
        1
    } else {
        0
    }
}

/// Scores a model by its name.
pub fn model_score(name: &str) -> (score: u8)
    ensures
        score == model_score_spec(name@),
{
    if contains_text(name, "flash-lite") {
        3
    } else if contains_text(name, "flash") {
        2
    } else if contains_text(name, "pro") {
        1
    } else {
        0
    }
}

/// Whether a model of the given name takes its instructions apart from
/// the content.
pub open spec fn supports_system_instruction_spec(name: Seq<char>) -> bool {
    contains_text_spec(name, "gemini-1.5"@) || contains_text_spec(name, "gemini-2.0"@)
        || contains_text_spec(name, "gemini-2.5"@)
}

/// Whether a model of the given name takes its instructions apart from
/// the content.
pub fn supports_system_instruction(name: &str) -> (supported: bool)
    ensures
        supported == supports_system_instruction_spec(name@),
{
    contains_text(name, "gemini-1.5") || contains_text(name, "gemini-2.0") || contains_text(
        name,
        "gemini-2.5",
    )
}

/// Whether text `a` comes before text `b` in the order of the
/// dictionary, character codes deciding.
pub open spec fn text_less(a: Seq<char>, b: Seq<char>) -> bool
    decreases a.len(),
{
    if b.len() == 0 {
        false
    } else if a.len() == 0 {
        true
    } else if a[0] != b[0] {
        (a[0] as u32) < (b[0] as u32)
    } else {
        text_less(a.drop_first(), b.drop_first())
    }
}

/// Whether one text comes before another in the order of the dictionary.
pub fn is_text_less(a: &str, b: &str) -> (less: bool)
    ensures
        less == text_less(a@, b@),
{
    let x = chars_of(a);
    let y = chars_of(b);
    let mut i: usize = 0;
    proof {
        assert(x@.skip(0) =~= x@);
        assert(y@.skip(0) =~= y@);
    }
    while i < x.len() && i < y.len()
        invariant
            x@ == a@,
            y@ == b@,
            i <= x.len(),
            i <= y.len(),
            text_less(a@, b@) == text_less(x@.skip(i as int), y@.skip(i as int)),
        decreases x.len() - i,
    {
        proof {
            assert(x@.skip(i as int).drop_first() =~= x@.skip(i + 1));
            assert(y@.skip(i as int).drop_first() =~= y@.skip(i + 1));
            assert(x@.skip(i as int)[0] == x@[i as int]);
            assert(y@.skip(i as int)[0] == y@[i as int]);
        }
        if x[i] != y[i] {
            let cx: u32 = x[i] as u32;
            let cy: u32 = y[i] as u32;
            return cx < cy;
        }
        i = i + 1;
    }
    i < y.len()
}

/// Whether the model named `a` is asked before the model named `b`: the
/// lighter one first, and of two alike the one whose name comes later in
/// the dictionary.
pub open spec fn ranks_before(a: Seq<char>, b: Seq<char>) -> bool {
    model_score_spec(a) > model_score_spec(b) || (model_score_spec(a) == model_score_spec(b)
        && text_less(b, a))
}

/// Whether the model named `a` is asked before the model named `b`.
pub fn is_ranked_before(a: &str, b: &str) -> (before: bool)
    ensures
        before == ranks_before(a@, b@),
{
    let sa = model_score(a);
    let sb = model_score(b);
    sa > sb || (sa == sb && is_text_less(b, a))
}

/// A ranked list of names with one more put in: behind every name that
/// it is not asked before.
pub open spec fn insert_ranked(ranked: Seq<Seq<char>>, name: Seq<char>) -> Seq<Seq<char>>
    decreases ranked.len(),
{
    if ranked.len() == 0 {
        seq![name]
    } else if !ranks_before(name, ranked.last()) {
        ranked.push(name)
    } else {
        insert_ranked(ranked.drop_last(), name).push(ranked.last())
    }
}

/// The names in the order in which their models are asked; names that
/// rank alike keep the order they had.
pub open spec fn rank_names(names: Seq<Seq<char>>) -> Seq<Seq<char>>
    decreases names.len(),
{
    if names.len() == 0 {
        names
    } else {
        insert_ranked(rank_names(names.drop_last()), names.last())
    }
}

/// The texts that a list of strings holds.
pub open spec fn texts(list: Seq<String>) -> Seq<Seq<char>> {
    list.map_values(|s: String| s@)
}

/// Whether a model can generate content.
pub open spec fn can_generate(model: GeminiModel) -> bool {
    exists|i: int|
        0 <= i < model.supported_generation_methods@.len() && (
        #[trigger] model.supported_generation_methods@[i])@ == "generateContent"@
}

/// The names of the models among the first `n` that can generate
/// content, in the order in which they are offered.
pub open spec fn offered_names(models: Seq<GeminiModel>, n: int) -> Seq<Seq<char>>
    decreases n,
{
    if n <= 0 || n > models.len() {
        Seq::<Seq<char>>::empty()
    } else {
        let rest = offered_names(models, n - 1);
        if can_generate(models[n - 1]) {
            rest.push(models[n - 1].name@)
        } else {
            rest
        }
    }
}

/// A list of names with the first `n` of the candidates behind it, each
/// unless the list already holds it.
pub open spec fn append_unseen(list: Seq<Seq<char>>, candidates: Seq<Seq<char>>, n: int) -> Seq<
    Seq<char>,
>
    decreases n,
{
    if n <= 0 || n > candidates.len() {
        list
    } else {
        let so_far = append_unseen(list, candidates, n - 1);
        if so_far.contains(candidates[n - 1]) {
            so_far
        } else {
            so_far.push(candidates[n - 1])
        }
    }
}

/// The names of the models to ask, in order: first the model that
/// answered last time, if one is remembered; then the models on offer
/// that can generate content, the lightest first, each name once.
pub open spec fn models_to_try_spec(remembered: Option<String>, models: Seq<GeminiModel>) -> Seq<
    Seq<char>,
> {
    let first = match remembered {
        Some(name) => seq![name@],
        None => Seq::<Seq<char>>::empty(),
    };
    let ranked = rank_names(offered_names(models, models.len() as int));
    append_unseen(first, ranked, ranked.len() as int)
}

fn check_can_generate(model: &GeminiModel) -> (can: bool)
    ensures
        can == can_generate(*model),
{
    let mut i: usize = 0;
    while i < model.supported_generation_methods.len()
        invariant
            i <= model.supported_generation_methods.len(),
            forall|j: int| 0 <= j < i ==> (#[trigger] model.supported_generation_methods@[j])@
                != "generateContent"@,
        decreases model.supported_generation_methods.len() - i,
    {
        if text_is(model.supported_generation_methods[i].as_str(), "generateContent") {
            return true;
        }
        i = i + 1;
    }
    false
}

fn holds_name(list: &Vec<String>, name: &str) -> (held: bool)
    ensures
        held == texts(list@).contains(name@),
{
    let mut i: usize = 0;
    while i < list.len()
        invariant
            i <= list.len(),
            forall|j: int| 0 <= j < i ==> (#[trigger] texts(list@)[j]) != name@,
        decreases list.len() - i,
    {
        assert(texts(list@)[i as int] == list@[i as int]@);
        if text_is(list[i].as_str(), name) {
            return true;
        }
        i = i + 1;
    }
    false
}

proof fn lemma_insert_ranked_position(ranked: Seq<Seq<char>>, name: Seq<char>, p: int)
    requires
        0 <= p <= ranked.len(),
        forall|k: int| p <= k < ranked.len() ==> ranks_before(name, #[trigger] ranked[k]),
        p > 0 ==> !ranks_before(name, ranked[p - 1]),
    ensures
        insert_ranked(ranked, name) == ranked.insert(p, name),
    decreases ranked.len() - p,
{
    if ranked.len() == 0 {
        assert(seq![name] =~= ranked.insert(p, name));
    } else if p == ranked.len() {
        assert(ranked.push(name) =~= ranked.insert(p, name));
    } else {
        assert(ranks_before(name, ranked[ranked.len() - 1]));
        let front = ranked.drop_last();
        assert forall|k: int| p <= k < front.len() implies ranks_before(
            name,
            #[trigger] front[k],
        ) by {
            assert(front[k] == ranked[k]);
        }
        lemma_insert_ranked_position(front, name, p);
        assert(front.insert(p, name).push(ranked.last()) =~= ranked.insert(p, name));
    }
}

/// Lists the names of the models to ask, in the order in which to ask
/// them.
pub fn models_to_try(remembered: Option<String>, models: &Vec<GeminiModel>) -> (names: Vec<String>)
    ensures
        texts(names@) == models_to_try_spec(remembered, models@),
{
    // the models on offer that can generate content, ranked
    let mut ranked: Vec<String> = Vec::new();
    let mut i: usize = 0;
    assert(texts(ranked@) =~= rank_names(offered_names(models@, 0)));
    while i < models.len()
        invariant
            i <= models.len(),
            texts(ranked@) == rank_names(offered_names(models@, i as int)),
        decreases models.len() - i,
    {
        if check_can_generate(&models[i]) {
            let name = models[i].name.clone();
            let mut p: usize = ranked.len();
            while p > 0 && is_ranked_before(name.as_str(), ranked[p - 1].as_str())
                invariant
                    p <= ranked.len(),
                    forall|k: int|
                        p <= k < ranked.len() ==> ranks_before(name@, #[trigger] texts(ranked@)[k]),
                decreases p,
            {
                assert(texts(ranked@)[p - 1] == ranked@[p - 1]@);
                p = p - 1;
            }
            proof {
                if p > 0 {
                    assert(texts(ranked@)[p - 1] == ranked@[p - 1]@);
                }
                lemma_insert_ranked_position(texts(ranked@), name@, p as int);
                assert(offered_names(models@, i + 1).drop_last() =~= offered_names(
                    models@,
                    i as int,
                ));
                assert(texts(ranked@.insert(p as int, name)) =~= texts(ranked@).insert(
                    p as int,
                    name@,
                ));
            }
            ranked.insert(p, name);
        }
        i = i + 1;
    }
    // the remembered model, then the ranked ones, each name once
    let mut names: Vec<String> = Vec::new();
    match remembered {
        Some(name) => {
            names.push(name);
            assert(texts(names@) =~= seq![name@]);
        },
        None => {
            assert(texts(names@) =~= Seq::<Seq<char>>::empty());
        },
    }
    let ghost first = texts(names@);
    let mut k: usize = 0;
    while k < ranked.len()
        invariant
            k <= ranked.len(),
            texts(names@) == append_unseen(first, texts(ranked@), k as int),
        decreases ranked.len() - k,
    {
        assert(texts(ranked@)[k as int] == ranked@[k as int]@);
        if !holds_name(&names, ranked[k].as_str()) {
            let ghost before = names@;
            let name = ranked[k].clone();
            names.push(name);
            assert(texts(names@) =~= texts(before).push(ranked@[k as int]@));
        }
        k = k + 1;
    }
    names
}

/// The stance the model is asked to take for a kind of retrospective.
pub open spec fn coach_stance_spec(retro_type: Seq<char>) -> Seq<char> {
    if retro_type == "DAILY"@ {
        "You are an expert productivity coach. Analyze the user's completed tasks for today. Highlight what was achieved, identify any potential blockers or interrupted flows (e.g., urgent tasks), and suggest a brief, actionable focus for tomorrow."@
    } else if retro_type == "WEEKLY"@ {
        "You are an expert productivity coach. Review the user's completed tasks for the past week. Identify major trends, areas of high productivity, and overall achievements. Provide constructive feedback and a strategic focus for the upcoming week."@
    } else if retro_type == "MONTHLY"@ {
        "You are an expert productivity coach. Evaluate the user's performance over the past month. Summarize key milestones, consistent patterns, and the overall impact of their work. Suggest long-term goals and areas for professional growth."@
    } else {
        "You are an expert productivity coach helping a user write a professional retrospective."@
    }
}

/// The language the retrospective is to be written in.
pub open spec fn output_language_spec(lang: Seq<char>) -> Seq<char> {
    if lang == "ko"@ {
        "Korean"@
    } else {
        "English"@
    }
}

/// The instructions for the model: the stance for the kind of
/// retrospective, and the rule that fixes the language of the answer.
pub open spec fn system_prompt_spec(retro_type: Seq<char>, lang: Seq<char>) -> Seq<char> {
    coach_stance_spec(retro_type)
        + "\n\nCRITICAL RULE: Regardless of the instructions above, you MUST generate the final retrospective output entirely in the user's requested language: ["@
        + output_language_spec(lang) + "]."@
}

/// Words the instructions for the model.
pub fn system_prompt(retro_type: &str, lang: &str) -> (text: String)
    ensures
        text@ == system_prompt_spec(retro_type@, lang@),
{
    let stance = if text_is(retro_type, "DAILY") {
        "You are an expert productivity coach. Analyze the user's completed tasks for today. Highlight what was achieved, identify any potential blockers or interrupted flows (e.g., urgent tasks), and suggest a brief, actionable focus for tomorrow."
    } else if text_is(retro_type, "WEEKLY") {
        "You are an expert productivity coach. Review the user's completed tasks for the past week. Identify major trends, areas of high productivity, and overall achievements. Provide constructive feedback and a strategic focus for the upcoming week."
    } else if text_is(retro_type, "MONTHLY") {
        "You are an expert productivity coach. Evaluate the user's performance over the past month. Summarize key milestones, consistent patterns, and the overall impact of their work. Suggest long-term goals and areas for professional growth."
    } else {
        "You are an expert productivity coach helping a user write a professional retrospective."
    };
    let language = if text_is(lang, "ko") {
        "Korean"
    } else {
        "English"
    };
    let mut out = String::from_str(stance);
    out.append(
        "\n\nCRITICAL RULE: Regardless of the instructions above, you MUST generate the final retrospective output entirely in the user's requested language: [",
    );
    out.append(language);
    out.append("].");
    out
}

/// The period a retrospective covers, in words.
pub open spec fn period_description_spec(start_date: Seq<char>, end_date: Seq<char>) -> Seq<char> {
    if start_date == end_date {
        "Daily summary for "@ + start_date
    } else {
        "Summary for the period from "@ + start_date + " to "@ + end_date
    }
}

/// Describes the period a retrospective covers.
pub fn period_description(start_date: &str, end_date: &str) -> (text: String)
    ensures
        text@ == period_description_spec(start_date@, end_date@),
{
    if text_is(start_date, end_date) {
        let mut out = String::from_str("Daily summary for ");
        out.append(start_date);
        out
    } else {
        let mut out = String::from_str("Summary for the period from ");
        out.append(start_date);
        out.append(" to ");
        out.append(end_date);
        out
    }
}

/// What the model is given to write from: the period, the role of the
/// user and the summary of the finished tasks.
pub open spec fn user_content_spec(period: Seq<char>, role: Seq<char>, summary: Seq<char>) -> Seq<
    char,
> {
    "**Period**: "@ + period + "\n\n**User Role/Intro**: "@ + role + "\n\n**Completed Tasks**:\n"@
        + summary
}

/// Words what the model is given to write from.
pub fn user_content(period: &str, role: &str, summary: &str) -> (text: String)
    ensures
        text@ == user_content_spec(period@, role@, summary@),
{
    let mut out = String::from_str("**Period**: ");
    out.append(period);
    out.append("\n\n**User Role/Intro**: ");
    out.append(role);
    out.append("\n\n**Completed Tasks**:\n");
    out.append(summary);
    out
}

} // verus!
