//! Turning the vision model's reply into questions: reading the HTTP reply,
//! cutting the JSON array out of the model text, and checking each question's
//! knowledge-point id against the index.
use vstd::prelude::*;
use serde_json::Value;
use crate::escapes::{fix_escapes, fix_json_escapes};
use crate::knowledge::{empty_state, lemma_run_index_domain, run, tree_entries, KpIndex, KpTree, NodeView};
use crate::text::{
    chars_of, concat2, first_index, last_index, lemma_first_index, lemma_last_index, string_of,
    take_chars,
};

verus! {

pub open spec fn opt_text(o: Option<String>) -> Option<Seq<char>> {
    match o {
        Some(s) => Some(s@),
        None => None,
    }
}

pub open spec fn opt_texts(o: Option<Vec<Option<String>>>) -> Option<Seq<Option<Seq<char>>>> {
    match o {
        Some(v) => Some(v@.map_values(|x: Option<String>| opt_text(x))),
        None => None,
    }
}

/// One array item of the model's answer, each field as JSON gave it (absent
/// or of another JSON type: `None`).
pub struct RawQuestion {
    pub label: Option<String>,
    pub read_text: Option<String>,
    pub has_figure: Option<bool>,
    pub primary_kp_id: Option<String>,
    /// The `alt_kp_ids` array, each item a string or not.
    pub alt_kp_ids: Option<Vec<Option<String>>>,
    /// The `confidence` number written as `f64`'s `Display` writes it.
    pub confidence: Option<String>,
    pub reason: Option<String>,
}

pub struct RawQuestionView {
    pub label: Option<Seq<char>>,
    pub read_text: Option<Seq<char>>,
    pub has_figure: Option<bool>,
    pub primary_kp_id: Option<Seq<char>>,
    pub alt_kp_ids: Option<Seq<Option<Seq<char>>>>,
    pub confidence: Option<Seq<char>>,
    pub reason: Option<Seq<char>>,
}

impl View for RawQuestion {
    type V = RawQuestionView;

    open spec fn view(&self) -> RawQuestionView {
        RawQuestionView {
            label: opt_text(self.label),
            read_text: opt_text(self.read_text),
            has_figure: self.has_figure,
            primary_kp_id: opt_text(self.primary_kp_id),
            alt_kp_ids: opt_texts(self.alt_kp_ids),
            confidence: opt_text(self.confidence),
            reason: opt_text(self.reason),
        }
    }
}

pub open spec fn opt_items(o: Option<Vec<RawQuestion>>) -> Option<Seq<RawQuestionView>> {
    match o {
        Some(v) => Some(v@.map_values(|x: RawQuestion| x@)),
        None => None,
    }
}

/// What `serde_json::from_str::<Value>` makes of `text`, read as an array of
/// question objects: `Err` with the parser's message where it is no JSON,
/// `Ok(None)` where the JSON is no array.
pub uninterp spec fn json_question_items(text: Seq<char>) -> Result<
    Option<Seq<RawQuestionView>>,
    Seq<char>,
>;

pub open spec fn parsed_items_view(r: Result<Option<Vec<RawQuestion>>, String>) -> Result<
    Option<Seq<RawQuestionView>>,
    Seq<char>,
> {
    match r {
        Ok(items) => Ok(opt_items(items)),
        Err(m) => Err(m@),
    }
}

/// `serde_json::from_str::<serde_json::Value>`, then `as_array`, and for each
/// item the fields the recognizer reads; a parse error is given as its
/// `Display` text. The contract names the outcome as a function of the text
/// alone; what the parser accepts and what its messages say are not stated here.
#[verifier::external_body]
fn parse_question_items(text: &str) -> (r: Result<Option<Vec<RawQuestion>>, String>)
    ensures
        parsed_items_view(r) == json_question_items(text@),
{
    let s = |v: &Value, k: &str| v[k].as_str().map(String::from);
    let v: Value = serde_json::from_str(text).map_err(|e| e.to_string())?;
    Ok(v.as_array().map(|a| a.iter().map(|it| RawQuestion {
        label: s(it, "题号"), read_text: s(it, "read_text"), has_figure: it["has_figure"].as_bool(),
        primary_kp_id: s(it, "primary_kp_id"), reason: s(it, "reason"),
        alt_kp_ids: it["alt_kp_ids"].as_array().map(|x| x.iter().map(|y| y.as_str().map(String::from)).collect()),
        confidence: it["confidence"].as_f64().map(|c| c.to_string()),
    }).collect()))
}

/// One recognized question, checked against the index.
pub struct Question {
    pub label: String,
    pub read_text: String,
    pub has_figure: bool,
    pub primary_kp_id: String,
    pub primary_kp_path: String,
    pub in_tree: bool,
    pub alt_kp_ids: Vec<String>,
    /// The confidence number as `f64`'s `Display` writes it.
    pub confidence: String,
    pub reason: String,
}

pub struct QuestionView {
    pub label: Seq<char>,
    pub read_text: Seq<char>,
    pub has_figure: bool,
    pub primary_kp_id: Seq<char>,
    pub primary_kp_path: Seq<char>,
    pub in_tree: bool,
    pub alt_kp_ids: Seq<Seq<char>>,
    pub confidence: Seq<char>,
    pub reason: Seq<char>,
}

impl View for Question {
    type V = QuestionView;

    open spec fn view(&self) -> QuestionView {
        QuestionView {
            label: self.label@,
            read_text: self.read_text@,
            has_figure: self.has_figure,
            primary_kp_id: self.primary_kp_id@,
            primary_kp_path: self.primary_kp_path@,
            in_tree: self.in_tree,
            alt_kp_ids: self.alt_kp_ids@.map_values(|s: String| s@),
            confidence: self.confidence@,
            reason: self.reason@,
        }
    }
}

pub open spec fn text_or_empty(o: Option<Seq<char>>) -> Seq<char> {
    match o {
        Some(s) => s,
        None => seq![],
    }
}

/// The string items of an array, in order.
pub open spec fn string_items(xs: Seq<Option<Seq<char>>>) -> Seq<Seq<char>>
    decreases xs.len(),
{
    if xs.len() == 0 {
        seq![]
    } else {
        let rest = string_items(xs.drop_last());
        match xs.last() {
            Some(s) => rest.push(s),
            None => rest,
        }
    }
}

/// A question from its raw fields: missing texts are empty, a missing figure
/// flag is false, a missing confidence is 0, non-string alternative ids are
/// dropped, and the primary id is looked up in the index for its path.
pub open spec fn question_of(raw: RawQuestionView, index: Map<Seq<char>, NodeView>) -> QuestionView {
    let pid = text_or_empty(raw.primary_kp_id);
    QuestionView {
        label: text_or_empty(raw.label),
        read_text: text_or_empty(raw.read_text),
        has_figure: match raw.has_figure {
            Some(b) => b,
            None => false,
        },
        primary_kp_id: pid,
        primary_kp_path: if index.contains_key(pid) {
            index[pid].path
        } else {
            seq![]
        },
        in_tree: index.contains_key(pid),
        alt_kp_ids: match raw.alt_kp_ids {
            Some(xs) => string_items(xs),
            None => seq![],
        },
        confidence: match raw.confidence {
            Some(c) => c,
            None => "0"@,
        },
        reason: text_or_empty(raw.reason),
    }
}

fn text_or_empty_exec(o: &Option<String>) -> (r: String)
    ensures
        r@ == text_or_empty(opt_text(*o)),
{
    match o {
        Some(s) => s.clone(),
        None => String::new(),
    }
}

fn string_items_exec(xs: &Vec<Option<String>>) -> (r: Vec<String>)
    ensures
        r@.map_values(|s: String| s@) == string_items(xs@.map_values(|x: Option<String>| opt_text(x))),
{
    let mut out: Vec<String> = Vec::new();
    let mut i: usize = 0;
    while i < xs.len()
        invariant
            0 <= i <= xs@.len(),
            out@.map_values(|s: String| s@) == string_items(
                xs@.take(i as int).map_values(|x: Option<String>| opt_text(x)),
            ),
        decreases xs@.len() - i,
    {
        let ghost prev = out@;
        proof {
            let a = xs@.take(i + 1).map_values(|x: Option<String>| opt_text(x));
            let b = xs@.take(i as int).map_values(|x: Option<String>| opt_text(x));
            assert(a.drop_last() =~= b);
            assert(a.last() == opt_text(xs@[i as int]));
        }
        match &xs[i] {
            Some(s) => {
                out.push(s.clone());
                assert(out@.map_values(|s: String| s@) =~= prev.map_values(|s: String| s@).push(
                    xs@[i as int]->Some_0@,
                ));
            },
            None => {},
        }
        i = i + 1;
    }
    assert(xs@.take(xs@.len() as int) =~= xs@);
    out
}

/// Builds one question from an array item, checking its id against the index.
pub fn question_from_raw(raw: &RawQuestion, index: &KpIndex) -> (q: Question)
    ensures
        q@ == question_of(raw@, index@),
        q.has_figure == (raw.has_figure == Some(true)),
{
    let pid = text_or_empty_exec(&raw.primary_kp_id);
    let in_tree = index.contains_key(pid.as_str());
    let path = match index.get(pid.as_str()) {
        Some(n) => n.path.clone(),
        None => String::new(),
    };
    let alt = match &raw.alt_kp_ids {
        Some(xs) => string_items_exec(xs),
        None => Vec::new(),
    };
    let confidence = match &raw.confidence {
        Some(c) => c.clone(),
        None => String::from_str("0"),
    };
    let q = Question {
        label: text_or_empty_exec(&raw.label),
        read_text: text_or_empty_exec(&raw.read_text),
        has_figure: match raw.has_figure {
            Some(b) => b,
            None => false,
        },
        primary_kp_id: pid,
        primary_kp_path: path,
        in_tree,
        alt_kp_ids: alt,
        confidence,
        reason: text_or_empty_exec(&raw.reason),
    };
    assert(q@.alt_kp_ids =~= question_of(raw@, index@).alt_kp_ids);
    q
}

/// Why the model text gave no questions.
pub enum QuestionsError {
    NoArrayStart,
    NoArrayEnd,
    BadBounds,
    /// Neither the text nor its repaired form is JSON; the parser's message.
    Json(String),
    NotArray,
}

/// The outcome of reading the model text, error messages aside.
pub enum QuestionsOutcome {
    NoArrayStart,
    NoArrayEnd,
    BadBounds,
    /// The parser's message for the repaired text.
    JsonError(Seq<char>),
    NotArray,
    Questions(Seq<QuestionView>),
}

/// From the first `[` to the last `]` of the text; read as JSON as it is, or,
/// where that fails, after repairing stray backslashes; each array item made
/// a question.
pub open spec fn questions_outcome(t: Seq<char>, index: Map<Seq<char>, NodeView>) -> QuestionsOutcome {
    match first_index(t, '[') {
        None => QuestionsOutcome::NoArrayStart,
        Some(a) => match last_index(t, ']') {
            None => QuestionsOutcome::NoArrayEnd,
            Some(b) => if b <= a {
                QuestionsOutcome::BadBounds
            } else {
                slice_outcome(t.subrange(a, b + 1), index)
            },
        },
    }
}

/// The array text read as JSON as it is, or, where that fails, after
/// repairing stray backslashes; each item made a question.
pub open spec fn slice_outcome(slice: Seq<char>, index: Map<Seq<char>, NodeView>) -> QuestionsOutcome {
    let parsed = if json_question_items(slice) is Ok {
        json_question_items(slice)
    } else {
        json_question_items(fix_escapes(slice))
    };
    items_outcome(parsed, index)
}

/// What a parsed array gives: the parser's message, no array, or one
/// question per item.
pub open spec fn items_outcome(
    parsed: Result<Option<Seq<RawQuestionView>>, Seq<char>>,
    index: Map<Seq<char>, NodeView>,
) -> QuestionsOutcome {
    match parsed {
        Err(m) => QuestionsOutcome::JsonError(m),
        Ok(None) => QuestionsOutcome::NotArray,
        Ok(Some(items)) => QuestionsOutcome::Questions(
            items.map_values(|r: RawQuestionView| question_of(r, index)),
        ),
    }
}

pub open spec fn questions_result_matches(
    r: Result<Vec<Question>, QuestionsError>,
    o: QuestionsOutcome,
) -> bool {
    match r {
        Ok(qs) => o == QuestionsOutcome::Questions(qs@.map_values(|q: Question| q@)),
        Err(QuestionsError::NoArrayStart) => o == QuestionsOutcome::NoArrayStart,
        Err(QuestionsError::NoArrayEnd) => o == QuestionsOutcome::NoArrayEnd,
        Err(QuestionsError::BadBounds) => o == QuestionsOutcome::BadBounds,
        Err(QuestionsError::Json(m)) => o == QuestionsOutcome::JsonError(m@),
        Err(QuestionsError::NotArray) => o == QuestionsOutcome::NotArray,
    }
}

pub open spec fn questions_error_message(e: QuestionsError) -> Seq<char> {
    match e {
        QuestionsError::NoArrayStart => "输出里找不到 JSON 数组开头 ["@,
        QuestionsError::NoArrayEnd => "输出里找不到 ]"@,
        QuestionsError::BadBounds => "JSON 数组边界异常"@,
        QuestionsError::Json(m) => "JSON 数组解析失败："@ + m@,
        QuestionsError::NotArray => "解析结果不是数组"@,
    }
}

impl QuestionsError {
    pub fn message(&self) -> (r: String)
        ensures
            r@ == questions_error_message(*self),
    {
        match self {
            QuestionsError::NoArrayStart => String::from_str("输出里找不到 JSON 数组开头 ["),
            QuestionsError::NoArrayEnd => String::from_str("输出里找不到 ]"),
            QuestionsError::BadBounds => String::from_str("JSON 数组边界异常"),
            QuestionsError::Json(m) => concat2("JSON 数组解析失败：", m.as_str()),
            QuestionsError::NotArray => String::from_str("解析结果不是数组"),
        }
    }
}

pub(crate) fn find_first(v: &Vec<char>, c: char) -> (r: Option<usize>)
    ensures
        match r {
            Some(i) => i < v@.len() && first_index(v@, c) == Some(i as int),
            None => first_index(v@, c) == None::<int>,
        },
{
    let mut i: usize = 0;
    while i < v.len()
        invariant
            0 <= i <= v@.len(),
            forall|j: int| 0 <= j < i ==> v@[j] != c,
        decreases v@.len() - i,
    {
        if v[i] == c {
            proof {
                lemma_first_index(v@, c, i as int);
            }
            return Some(i);
        }
        i = i + 1;
    }
    None
}

pub(crate) fn find_last(v: &Vec<char>, c: char) -> (r: Option<usize>)
    ensures
        match r {
            Some(i) => i < v@.len() && last_index(v@, c) == Some(i as int),
            None => last_index(v@, c) == None::<int>,
        },
{
    let mut i: usize = v.len();
    while i > 0
        invariant
            0 <= i <= v@.len(),
            forall|j: int| i <= j < v@.len() ==> v@[j] != c,
        decreases i,
    {
        if v[i - 1] == c {
            proof {
                lemma_last_index(v@, c, i - 1);
            }
            return Some(i - 1);
        }
        i = i - 1;
    }
    None
}

fn questions_from_items(items: &Vec<RawQuestion>, index: &KpIndex) -> (r: Vec<Question>)
    ensures
        r@.len() == items@.len(),
        forall|j: int| 0 <= j < r@.len() ==> #[trigger] r@[j]@ == question_of(items@[j]@, index@),
{
    let mut out: Vec<Question> = Vec::new();
    let mut i: usize = 0;
    while i < items.len()
        invariant
            0 <= i <= items@.len(),
            out@.len() == i,
            forall|j: int| 0 <= j < i ==> #[trigger] out@[j]@ == question_of(items@[j]@, index@),
        decreases items@.len() - i,
    {
        let q = question_from_raw(&items[i], index);
        out.push(q);
        i = i + 1;
    }
    out
}

/// The questions of a parsed array: the parser's message as an error, an
/// error where the JSON is no array, or one question per item checked
/// against the index.
pub fn read_items(parsed: Result<Option<Vec<RawQuestion>>, String>, index: &KpIndex) -> (r: Result<
    Vec<Question>,
    QuestionsError,
>)
    ensures
        questions_result_matches(r, items_outcome(parsed_items_view(parsed), index@)),
{
    match parsed {
        Err(m) => Err(QuestionsError::Json(m)),
        Ok(None) => Err(QuestionsError::NotArray),
        Ok(Some(items)) => {
            let qs = questions_from_items(&items, index);
            assert(qs@.map_values(|q: Question| q@) =~= items@.map_values(|x: RawQuestion| x@).map_values(
                |x: RawQuestionView| question_of(x, index@),
            ));
            Ok(qs)
        },
    }
}

fn read_array(slice: &str, index: &KpIndex) -> (r: Result<Vec<Question>, QuestionsError>)
    ensures
        questions_result_matches(r, slice_outcome(slice@, index@)),
{
    let parsed = match parse_question_items(slice) {
        Ok(x) => Ok(x),
        Err(_) => {
            let fixed = fix_json_escapes(slice);
            parse_question_items(fixed.as_str())
        },
    };
    read_items(parsed, index)
}

/// Cuts the JSON array out of the model's text (first `[` to last `]`),
/// reads it (after repairing stray backslashes where it does not read as it
/// is), and makes each item a question checked against the index.
pub fn parse_questions(text: &str, index: &KpIndex) -> (r: Result<Vec<Question>, QuestionsError>)
    ensures
        questions_result_matches(r, questions_outcome(text@, index@)),
{
    let v = chars_of(text);
    let start = match find_first(&v, '[') {
        Some(a) => a,
        None => return Err(QuestionsError::NoArrayStart),
    };
    let end = match find_last(&v, ']') {
        Some(b) => b,
        None => return Err(QuestionsError::NoArrayEnd),
    };
    if end <= start {
        return Err(QuestionsError::BadBounds);
    }
    let n = v.len();
    assert(end < n);
    let slice = string_of(&v, start, end + 1);
    read_array(slice.as_str(), index)
}

/// A question is marked as in the tree exactly when its id is one of the
/// loaded tree's ids (an id the model made up is flagged).
pub proof fn law_in_tree_iff_tree_id(tree: KpTree, raw: RawQuestionView)
    ensures
        question_of(raw, run(empty_state(), tree_entries(tree)).index).in_tree <==> exists|i: int|
            0 <= i < tree_entries(tree).len() && tree_entries(tree)[i].id == text_or_empty(
                raw.primary_kp_id,
            ),
{
    lemma_run_index_domain(tree_entries(tree), text_or_empty(raw.primary_kp_id));
}

/// How an array item becomes a question: a field that is absent (or of
/// another JSON type) reads as empty text, the figure flag is the item's
/// boolean where it has one and `false` where not, the confidence defaults to
/// `0`, and the path is the indexed node's path where the id is in the index
/// and empty where not.
pub proof fn law_question_fields(raw: RawQuestionView, index: Map<Seq<char>, NodeView>)
    ensures
        ({
            let q = question_of(raw, index);
            let id = match raw.primary_kp_id {
                Some(t) => t,
                None => Seq::<char>::empty(),
            };
            &&& q.has_figure == (raw.has_figure == Some(true))
            &&& raw.label matches Some(t) ==> q.label == t
            &&& raw.label is None ==> q.label.len() == 0
            &&& raw.read_text matches Some(t) ==> q.read_text == t
            &&& raw.read_text is None ==> q.read_text.len() == 0
            &&& raw.reason matches Some(t) ==> q.reason == t
            &&& raw.reason is None ==> q.reason.len() == 0
            &&& raw.confidence matches Some(t) ==> q.confidence == t
            &&& raw.confidence is None ==> q.confidence == "0"@
            &&& q.primary_kp_id == id
            &&& q.in_tree == index.contains_key(id)
            &&& index.contains_key(id) ==> q.primary_kp_path == index[id].path
            &&& !index.contains_key(id) ==> q.primary_kp_path.len() == 0
            &&& raw.alt_kp_ids is None ==> q.alt_kp_ids.len() == 0
            &&& raw.alt_kp_ids matches Some(xs) ==> q.alt_kp_ids == xs.filter(
                |x: Option<Seq<char>>| x is Some,
            ).map_values(|x: Option<Seq<char>>| x->Some_0)
        }),
{
    if let Some(xs) = raw.alt_kp_ids {
        lemma_string_items_filter(xs);
    }
}

proof fn lemma_string_items_filter(xs: Seq<Option<Seq<char>>>)
    ensures
        string_items(xs) == xs.filter(|x: Option<Seq<char>>| x is Some).map_values(
            |x: Option<Seq<char>>| x->Some_0,
        ),
    decreases xs.len(),
{
    reveal(Seq::filter);
    if xs.len() > 0 {
        let ys = xs.drop_last();
        lemma_string_items_filter(ys);
        let f = ys.filter(|x: Option<Seq<char>>| x is Some);
        if xs.last() is Some {
            assert(f.push(xs.last()).map_values(|x: Option<Seq<char>>| x->Some_0) =~= f.map_values(
                |x: Option<Seq<char>>| x->Some_0,
            ).push(xs.last()->Some_0));
        }
    }
}

/// Prose before and after the JSON array is ignored: where the text before
/// holds no `[`, the text after holds no `]`, and the array text starts with
/// `[` and ends with `]`, the questions read are those of the array alone.
pub proof fn law_surrounding_text_ignored(
    before: Seq<char>,
    array: Seq<char>,
    after: Seq<char>,
    index: Map<Seq<char>, NodeView>,
)
    requires
        array.len() >= 2,
        array[0] == '[',
        array.last() == ']',
        forall|i: int| 0 <= i < before.len() ==> before[i] != '[',
        forall|i: int| 0 <= i < after.len() ==> after[i] != ']',
    ensures
        questions_outcome(before + array + after, index) == questions_outcome(array, index),
{
    let t = before + array + after;
    let a = before.len() as int;
    let b = (before.len() + array.len() - 1) as int;
    assert(t[a] == '[');
    assert forall|j: int| 0 <= j < a implies t[j] != '[' by {
        assert(t[j] == before[j]);
    }
    lemma_first_index(t, '[', a);
    assert(t[b] == ']');
    assert forall|j: int| b < j < t.len() implies t[j] != ']' by {
        assert(t[j] == after[j - b - 1]);
    }
    lemma_last_index(t, ']', b);
    assert(t.subrange(a, b + 1) =~= array);
    lemma_first_index(array, '[', 0);
    lemma_last_index(array, ']', array.len() - 1);
    assert(array.subrange(0, array.len() as int) =~= array);
}

// ---------------------------------------------------------------------------
// The HTTP reply of the vision endpoint
// ---------------------------------------------------------------------------
/// The token counts of `usage`, each absent where it is no unsigned integer.
#[derive(Clone, Copy, PartialEq, Eq, Structural, Debug)]
pub struct Usage {
    pub prompt_tokens: Option<u64>,
    pub completion_tokens: Option<u64>,
    pub total_tokens: Option<u64>,
}

/// The parts of a chat-completion reply that the recognizer reads.
pub struct Completion {
    pub content: Option<String>,
    pub usage: Usage,
}

pub struct CompletionView {
    pub content: Option<Seq<char>>,
    pub usage: Usage,
}

impl View for Completion {
    type V = CompletionView;

    open spec fn view(&self) -> CompletionView {
        CompletionView { content: opt_text(self.content), usage: self.usage }
    }
}

/// What `serde_json::from_str::<Value>` makes of a reply body, read as a chat
/// completion (`choices[0].message.content` and `usage`): `Err` with the
/// parser's message where it is no JSON.
pub uninterp spec fn json_completion(body: Seq<char>) -> Result<CompletionView, Seq<char>>;

pub open spec fn parsed_completion_view(r: Result<Completion, String>) -> Result<
    CompletionView,
    Seq<char>,
> {
    match r {
        Ok(c) => Ok(c@),
        Err(m) => Err(m@),
    }
}

/// `serde_json::from_str::<serde_json::Value>` on the reply body, then the
/// content string and the three token counts; a parse error is given as its
/// `Display` text. The contract names the outcome as a function of the body
/// alone.
#[verifier::external_body]
fn parse_completion(body: &str) -> (r: Result<Completion, String>)
    ensures
        parsed_completion_view(r) == json_completion(body@),
{
    let d: Value = serde_json::from_str(body).map_err(|e| e.to_string())?;
    let u = &d["usage"];
    Ok(Completion {
        content: d["choices"][0]["message"]["content"].as_str().map(String::from),
        usage: Usage {
            prompt_tokens: u["prompt_tokens"].as_u64(),
            completion_tokens: u["completion_tokens"].as_u64(),
            total_tokens: u["total_tokens"].as_u64(),
        },
    })
}

/// What is sent to the vision endpoint: the system prompt, one user message
/// with the instruction and the image, and the sampling settings.
pub struct VisionRequest {
    pub model: String,
    pub system_prompt: String,
    pub instruction: String,
    pub image_url: String,
    pub detail: String,
    pub temperature: u32,
    pub max_tokens: u32,
}

/// The instruction sent with every image.
pub open spec fn vision_instruction() -> Seq<char> {
    "识别这张图里的所有题目，按要求只输出 JSON 数组。"@
}

/// The request for one image: high image detail, temperature 0, at most 1500 tokens.
pub fn vision_request(model: &str, system_prompt: &str, data_uri: &str) -> (r: VisionRequest)
    ensures
        r.model@ == model@,
        r.system_prompt@ == system_prompt@,
        r.instruction@ == vision_instruction(),
        r.image_url@ == data_uri@,
        r.detail@ == "high"@,
        r.temperature == 0,
        r.max_tokens == 1500,
{
    VisionRequest {
        model: String::from_str(model),
        system_prompt: String::from_str(system_prompt),
        instruction: String::from_str("识别这张图里的所有题目，按要求只输出 JSON 数组。"),
        image_url: String::from_str(data_uri),
        detail: String::from_str("high"),
        temperature: 0,
        max_tokens: 1500,
    }
}

/// The `Authorization` header value for a key.
pub fn bearer_header(key: &str) -> (r: String)
    ensures
        r@ == "Bearer "@ + key@,
{
    concat2("Bearer ", key)
}

/// The model's text and the token counts of a successful reply.
pub struct VisionReply {
    pub content: String,
    pub usage: Usage,
}

/// The first `n` characters of `s`.
pub fn prefix_chars(s: &str, n: usize) -> (r: String)
    ensures
        r@ == take_chars(s@, n as nat),
{
    let v = chars_of(s);
    let k = if v.len() <= n {
        v.len()
    } else {
        n
    };
    let r = string_of(&v, 0, k);
    assert(v@.subrange(0, v@.len() as int) =~= v@);
    r
}

/// What a parsed reply gives: the parser's message after "响应非 JSON：", the
/// first 300 characters of the body where there is no content string, or the
/// content and the token counts.
pub open spec fn completion_outcome(parsed: Result<CompletionView, Seq<char>>, body: Seq<char>) -> Result<
    (Seq<char>, Usage),
    Seq<char>,
> {
    match parsed {
        Err(m) => Err("响应非 JSON："@ + m),
        Ok(c) => match c.content {
            None => Err("响应里没有 choices[0].message.content："@ + take_chars(body, 300)),
            Some(t) => Ok((t, c.usage)),
        },
    }
}

pub open spec fn reply_matches(r: Result<VisionReply, String>, o: Result<(Seq<char>, Usage), Seq<char>>) -> bool {
    match r {
        Ok(rep) => o == Ok::<(Seq<char>, Usage), Seq<char>>((rep.content@, rep.usage)),
        Err(m) => o == Err::<(Seq<char>, Usage), Seq<char>>(m@),
    }
}

/// The reply of a parsed body (see `completion_outcome`).
pub fn read_completion(parsed: Result<Completion, String>, body: &str) -> (r: Result<VisionReply, String>)
    ensures
        reply_matches(r, completion_outcome(parsed_completion_view(parsed), body@)),
{
    match parsed {
        Err(e) => Err(concat2("响应非 JSON：", e.as_str())),
        Ok(c) => match c.content {
            None => {
                let snippet = prefix_chars(body, 300);
                Err(concat2("响应里没有 choices[0].message.content：", snippet.as_str()))
            },
            Some(t) => Ok(VisionReply { content: t, usage: c.usage }),
        },
    }
}

/// Reads the vision endpoint's reply: a failed status gives its status line
/// and the first 800 characters of the body; a body that is no JSON (with the
/// parser's message), or has no `choices[0].message.content` string (then with
/// its first 300 characters), is an error; otherwise the text and the token counts.
pub fn interpret_response(status_ok: bool, status: &str, body: &str) -> (r: Result<
    VisionReply,
    String,
>)
    ensures
        !status_ok ==> r is Err && r->Err_0@ == "HTTP "@ + status@ + "："@ + take_chars(body@, 800),
        status_ok ==> reply_matches(r, completion_outcome(json_completion(body@), body@)),
{
    if !status_ok {
        let mut s = concat2("HTTP ", status);
        s.append("：");
        let snippet = prefix_chars(body, 800);
        s.append(snippet.as_str());
        return Err(s);
    }
    read_completion(parse_completion(body), body)
}

// ---------------------------------------------------------------------------
// One image's result
// ---------------------------------------------------------------------------
/// The result of recognizing one image (it may hold several questions).
pub struct ImageResult {
    pub image: String,
    pub ok: bool,
    pub error: String,
    pub raw: String,
    /// Seconds the request took, as the bits of an `f64`.
    pub latency_bits: u64,
    pub prompt_tokens: u64,
    pub completion_tokens: u64,
    pub total_tokens: u64,
    pub questions: Vec<Question>,
}

pub struct ImageView {
    pub image: Seq<char>,
    pub ok: bool,
    pub error: Seq<char>,
    pub raw: Seq<char>,
    pub latency_bits: u64,
    pub prompt_tokens: u64,
    pub completion_tokens: u64,
    pub total_tokens: u64,
    pub questions: Seq<QuestionView>,
}

impl View for ImageResult {
    type V = ImageView;

    open spec fn view(&self) -> ImageView {
        ImageView {
            image: self.image@,
            ok: self.ok,
            error: self.error@,
            raw: self.raw@,
            latency_bits: self.latency_bits,
            prompt_tokens: self.prompt_tokens,
            completion_tokens: self.completion_tokens,
            total_tokens: self.total_tokens,
            questions: self.questions@.map_values(|q: Question| q@),
        }
    }
}

pub open spec fn count_or_zero(o: Option<u64>) -> u64 {
    match o {
        Some(n) => n,
        None => 0,
    }
}

/// The message of a reading failure.
pub open spec fn outcome_message(o: QuestionsOutcome) -> Seq<char> {
    match o {
        QuestionsOutcome::NoArrayStart => "输出里找不到 JSON 数组开头 ["@,
        QuestionsOutcome::NoArrayEnd => "输出里找不到 ]"@,
        QuestionsOutcome::BadBounds => "JSON 数组边界异常"@,
        QuestionsOutcome::JsonError(m) => "JSON 数组解析失败："@ + m,
        QuestionsOutcome::NotArray => "解析结果不是数组"@,
        QuestionsOutcome::Questions(_) => seq![],
    }
}

pub open spec fn reply_reading_matches(
    ok: bool,
    error: Seq<char>,
    questions: Seq<QuestionView>,
    o: QuestionsOutcome,
) -> bool {
    match o {
        QuestionsOutcome::Questions(qs) => ok && error == Seq::<char>::empty() && questions == qs,
        o => !ok && error == outcome_message(o) && questions.len() == 0,
    }
}

fn read_reply(content: &str, index: &KpIndex) -> (r: (bool, String, Vec<Question>))
    ensures
        reply_reading_matches(
            r.0,
            r.1@,
            r.2@.map_values(|q: Question| q@),
            questions_outcome(content@, index@),
        ),
{
    match parse_questions(content, index) {
        Ok(qs) => (true, String::new(), qs),
        Err(e) => {
            let m = e.message();
            let none: Vec<Question> = Vec::new();
            assert(none@.map_values(|q: Question| q@) =~= Seq::<QuestionView>::empty());
            (false, m, none)
        },
    }
}

/// The image's result once the request has been made: a failure before or
/// during the request keeps only its message; a reply keeps its text, the
/// time and the token counts (absent counts are 0), and then holds the
/// questions read from its text or the message of why none could be read.
pub fn finish_image(
    image: &str,
    outcome: Result<VisionReply, String>,
    latency_bits: u64,
    index: &KpIndex,
) -> (r: ImageResult)
    ensures
        r@.image == image@,
        match outcome {
            Err(e) => {
                &&& !r@.ok
                &&& r@.error == e@
                &&& r@.raw == Seq::<char>::empty()
                &&& r@.latency_bits == 0
                &&& r@.prompt_tokens == 0
                &&& r@.completion_tokens == 0
                &&& r@.total_tokens == 0
                &&& r@.questions.len() == 0
            },
            Ok(reply) => {
                &&& r@.raw == reply.content@
                &&& r@.latency_bits == latency_bits
                &&& r@.prompt_tokens == count_or_zero(reply.usage.prompt_tokens)
                &&& r@.completion_tokens == count_or_zero(reply.usage.completion_tokens)
                &&& r@.total_tokens == count_or_zero(reply.usage.total_tokens)
                &&& reply_reading_matches(
                    r@.ok,
                    r@.error,
                    r@.questions,
                    questions_outcome(reply.content@, index@),
                )
            },
        },
{
    match outcome {
        Err(e) => ImageResult {
            image: String::from_str(image),
            ok: false,
            error: e,
            raw: String::new(),
            latency_bits: 0,
            prompt_tokens: 0,
            completion_tokens: 0,
            total_tokens: 0,
            questions: Vec::new(),
        },
        Ok(reply) => {
            let prompt_tokens = match reply.usage.prompt_tokens {
                Some(n) => n,
                None => 0,
            };
            let completion_tokens = match reply.usage.completion_tokens {
                Some(n) => n,
                None => 0,
            };
            let total_tokens = match reply.usage.total_tokens {
                Some(n) => n,
                None => 0,
            };
            let (ok, error, questions) = read_reply(reply.content.as_str(), index);
            ImageResult {
                image: String::from_str(image),
                ok,
                error,
                raw: reply.content,
                latency_bits,
                prompt_tokens,
                completion_tokens,
                total_tokens,
                questions,
            }
        },
    }
}

} // verus!
