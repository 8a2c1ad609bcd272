//! The review table written for graders, the summary of a batch run, and the
//! cell lookups used when a graded table is scored.
use vstd::prelude::*;
use crate::recognition::{ImageResult, ImageView, Question, QuestionView};
use crate::text::{concat2, join_strings, join_with, strip_str, trim, Strip};

verus! {

// ---------------------------------------------------------------------------
// The review table
// ---------------------------------------------------------------------------
/// The column titles of the review table.
pub open spec fn review_header_titles() -> Seq<Seq<char>> {
    seq![
        "图片"@,
        "题号"@,
        "模型读题文本"@,
        "含图形"@,
        "归类ID(主)"@,
        "归类路径(主)"@,
        "备选ID"@,
        "置信度"@,
        "模型理由"@,
        "读题正确(1=对/0.5=部分/0=错)"@,
        "归类正确(1/0)"@,
        "正确知识点ID(可选填)"@,
        "备注"@,
    ]
}

pub open spec fn texts_of(v: Seq<String>) -> Seq<Seq<char>> {
    v.map_values(|s: String| s@)
}

pub open spec fn rows_of(v: Seq<Vec<String>>) -> Seq<Seq<Seq<char>>> {
    v.map_values(|row: Vec<String>| texts_of(row@))
}

pub fn review_headers() -> (r: Vec<String>)
    ensures
        texts_of(r@) == review_header_titles(),
{
    let r = vec![
        String::from_str("图片"),
        String::from_str("题号"),
        String::from_str("模型读题文本"),
        String::from_str("含图形"),
        String::from_str("归类ID(主)"),
        String::from_str("归类路径(主)"),
        String::from_str("备选ID"),
        String::from_str("置信度"),
        String::from_str("模型理由"),
        String::from_str("读题正确(1=对/0.5=部分/0=错)"),
        String::from_str("归类正确(1/0)"),
        String::from_str("正确知识点ID(可选填)"),
        String::from_str("备注"),
    ];
    assert(texts_of(r@) =~= review_header_titles());
    r
}

pub open spec fn bool_text(b: bool) -> Seq<char> {
    if b {
        "true"@
    } else {
        "false"@
    }
}

/// The id as shown in the table, marked where it is not in the tree.
pub open spec fn id_mark(q: QuestionView) -> Seq<char> {
    if q.in_tree {
        q.primary_kp_id
    } else {
        q.primary_kp_id + " (不在树中)"@
    }
}

pub open spec fn blank_cells(n: nat) -> Seq<Seq<char>> {
    Seq::new(n, |i: int| Seq::<char>::empty())
}

/// The row of an image that failed: its name, an empty number, the error.
pub open spec fn failure_row(r: ImageView) -> Seq<Seq<char>> {
    seq![r.image, Seq::<char>::empty(), "[识别失败] "@ + r.error] + blank_cells(10)
}

/// The row of one question; the last four columns are left for the grader.
pub open spec fn question_row(image: Seq<char>, q: QuestionView) -> Seq<Seq<char>> {
    seq![
        image,
        q.label,
        q.read_text,
        bool_text(q.has_figure),
        id_mark(q),
        q.primary_kp_path,
        join_with(q.alt_kp_ids, " "@),
        q.confidence,
        q.reason,
        Seq::<char>::empty(),
        Seq::<char>::empty(),
        Seq::<char>::empty(),
        Seq::<char>::empty(),
    ]
}

pub open spec fn result_rows(r: ImageView) -> Seq<Seq<Seq<char>>> {
    if !r.ok {
        seq![failure_row(r)]
    } else {
        r.questions.map_values(|q: QuestionView| question_row(r.image, q))
    }
}

/// All rows: each image's rows in turn.
pub open spec fn review_table(rs: Seq<ImageView>) -> Seq<Seq<Seq<char>>>
    decreases rs.len(),
{
    if rs.len() == 0 {
        seq![]
    } else {
        review_table(rs.drop_last()) + result_rows(rs.last())
    }
}

pub open spec fn views_of_results(v: Seq<ImageResult>) -> Seq<ImageView> {
    v.map_values(|r: ImageResult| r@)
}

/// How many rows an image gives: one per question, or one for a failure.
pub open spec fn rows_expected(rs: Seq<ImageView>) -> nat
    decreases rs.len(),
{
    if rs.len() == 0 {
        0
    } else {
        rows_expected(rs.drop_last()) + if rs.last().ok {
            rs.last().questions.len()
        } else {
            1nat
        }
    }
}

/// The review table has one row per question of each recognized image and
/// one row per failed image.
pub proof fn law_one_row_per_question(rs: Seq<ImageView>)
    ensures
        review_table(rs).len() == rows_expected(rs),
    decreases rs.len(),
{
    if rs.len() > 0 {
        law_one_row_per_question(rs.drop_last());
    }
}

/// The `j`-th row of image `i` sits after the rows of the images before it.
proof fn lemma_row_at(rs: Seq<ImageView>, i: int, j: int)
    requires
        0 <= i < rs.len(),
        0 <= j < result_rows(rs[i]).len(),
    ensures
        rows_expected(rs.take(i)) + j < review_table(rs).len(),
        review_table(rs)[rows_expected(rs.take(i)) + j] == result_rows(rs[i])[j],
    decreases rs.len(),
{
    let front = rs.drop_last();
    law_one_row_per_question(front);
    law_one_row_per_question(rs);
    if i < rs.len() - 1 {
        assert(front.take(i) =~= rs.take(i));
        assert(front[i] == rs[i]);
        lemma_row_at(front, i, j);
    } else {
        assert(rs.take(i) =~= front);
    }
}

/// Every question of a recognized image has a row of its own, in order after
/// the rows of the images before it, holding the image's name, the question's
/// number, its text, `true`/`false` for a figure, the id (marked where it is
/// not in the tree), the path, the other ids, the confidence and the reason,
/// then four blank cells for the grader.
pub proof fn law_question_row(rs: Seq<ImageView>, i: int, j: int)
    requires
        0 <= i < rs.len(),
        rs[i].ok,
        0 <= j < rs[i].questions.len(),
    ensures
        ({
            let at = rows_expected(rs.take(i)) + j;
            let row = review_table(rs)[at];
            let q = rs[i].questions[j];
            &&& at < review_table(rs).len()
            &&& row.len() == 13
            &&& row[0] == rs[i].image
            &&& row[1] == q.label
            &&& row[2] == q.read_text
            &&& row[3] == (if q.has_figure {
                "true"@
            } else {
                "false"@
            })
            &&& row[4] == (if q.in_tree {
                q.primary_kp_id
            } else {
                q.primary_kp_id + " (不在树中)"@
            })
            &&& row[5] == q.primary_kp_path
            &&& row[6] == join_with(q.alt_kp_ids, " "@)
            &&& row[7] == q.confidence
            &&& row[8] == q.reason
            &&& forall|k: int| 9 <= k < 13 ==> #[trigger] row[k].len() == 0
        }),
{
    let r = rs[i];
    assert(result_rows(r)[j] == question_row(r.image, r.questions[j]));
    lemma_row_at(rs, i, j);
}

/// A failed image has one row: its name, a blank number, the error after
/// `[识别失败] `, and blank cells.
pub proof fn law_failure_row(rs: Seq<ImageView>, i: int)
    requires
        0 <= i < rs.len(),
        !rs[i].ok,
    ensures
        ({
            let at = rows_expected(rs.take(i)) as int;
            let row = review_table(rs)[at];
            &&& at < review_table(rs).len()
            &&& rows_expected(rs.take(i + 1)) == at + 1
            &&& row.len() == 13
            &&& row[0] == rs[i].image
            &&& row[1].len() == 0
            &&& row[2] == "[识别失败] "@ + rs[i].error
            &&& forall|k: int| 3 <= k < 13 ==> #[trigger] row[k].len() == 0
        }),
{
    let r = rs[i];
    assert(result_rows(r)[0] == failure_row(r));
    lemma_row_at(rs, i, 0);
    assert(rs.take(i + 1).drop_last() =~= rs.take(i));
    let row = failure_row(r);
    assert forall|k: int| 3 <= k < 13 implies #[trigger] row[k].len() == 0 by {
        assert(row[k] == blank_cells(10)[k - 3]);
    }
}

fn failure_row_exec(r: &ImageResult) -> (row: Vec<String>)
    ensures
        texts_of(row@) == failure_row(r@),
{
    let mut row = vec![r.image.clone(), String::new(), concat2("[识别失败] ", r.error.as_str())];
    let mut k: usize = 0;
    while k < 10
        invariant
            0 <= k <= 10,
            texts_of(row@) == seq![r@.image, Seq::<char>::empty(), "[识别失败] "@ + r@.error]
                + blank_cells(k as nat),
        decreases 10 - k,
    {
        let ghost prev = texts_of(row@);
        row.push(String::new());
        assert(texts_of(row@) =~= prev.push(Seq::<char>::empty()));
        assert(blank_cells((k + 1) as nat) =~= blank_cells(k as nat).push(Seq::<char>::empty()));
        assert(seq![r@.image, Seq::<char>::empty(), "[识别失败] "@ + r@.error] + blank_cells(
            (k + 1) as nat,
        ) =~= (seq![r@.image, Seq::<char>::empty(), "[识别失败] "@ + r@.error] + blank_cells(
            k as nat,
        )).push(Seq::<char>::empty()));
        k = k + 1;
    }
    row
}

fn question_row_exec(image: &String, q: &Question) -> (row: Vec<String>)
    ensures
        texts_of(row@) == question_row(image@, q@),
{
    let mark = if q.in_tree {
        q.primary_kp_id.clone()
    } else {
        concat2(q.primary_kp_id.as_str(), " (不在树中)")
    };
    let fig = if q.has_figure {
        String::from_str("true")
    } else {
        String::from_str("false")
    };
    let row = vec![
        image.clone(),
        q.label.clone(),
        q.read_text.clone(),
        fig,
        mark,
        q.primary_kp_path.clone(),
        join_strings(&q.alt_kp_ids, " "),
        q.confidence.clone(),
        q.reason.clone(),
        String::new(),
        String::new(),
        String::new(),
        String::new(),
    ];
    assert(texts_of(row@) =~= question_row(image@, q@));
    row
}

/// The rows of the review table (headers aside): one row per question of
/// each recognized image, one row per failed image.
pub fn review_rows(results: &Vec<ImageResult>) -> (rows: Vec<Vec<String>>)
    ensures
        rows_of(rows@) == review_table(views_of_results(results@)),
{
    let ghost rv = views_of_results(results@);
    let mut rows: Vec<Vec<String>> = Vec::new();
    let mut i: usize = 0;
    while i < results.len()
        invariant
            0 <= i <= results@.len(),
            rv == views_of_results(results@),
            rows_of(rows@) == review_table(rv.take(i as int)),
        decreases results@.len() - i,
    {
        let r = &results[i];
        let ghost before = rows_of(rows@);
        proof {
            assert(rv.take(i + 1).drop_last() =~= rv.take(i as int));
            assert(rv.take(i + 1).last() == r@);
        }
        if !r.ok {
            rows.push(failure_row_exec(r));
            assert(rows_of(rows@) =~= before + result_rows(r@));
        } else {
            let mut j: usize = 0;
            while j < r.questions.len()
                invariant
                    0 <= j <= r.questions@.len(),
                    r.ok,
                    rows_of(rows@) == before + r@.questions.take(j as int).map_values(
                        |q: QuestionView| question_row(r@.image, q),
                    ),
                decreases r.questions@.len() - j,
            {
                let ghost mid = rows_of(rows@);
                rows.push(question_row_exec(&r.image, &r.questions[j]));
                assert(rows_of(rows@) =~= mid.push(question_row(r@.image, r.questions@[j as int]@)));
                assert(r@.questions.take(j + 1).map_values(|q: QuestionView| question_row(r@.image, q))
                    =~= r@.questions.take(j as int).map_values(
                    |q: QuestionView| question_row(r@.image, q),
                ).push(question_row(r@.image, r.questions@[j as int]@)));
                j = j + 1;
            }
            assert(r@.questions.take(r@.questions.len() as int) =~= r@.questions);
        }
        i = i + 1;
    }
    assert(rv.take(rv.len() as int) =~= rv);
    rows
}

// ---------------------------------------------------------------------------
// The batch summary
// ---------------------------------------------------------------------------
/// Counts over a batch of image results.
pub struct RunSummary {
    pub images: usize,
    pub succeeded: usize,
    pub failed: usize,
    pub questions: usize,
    pub with_figure: usize,
    pub not_in_tree: usize,
    pub total_tokens: u64,
}

pub open spec fn succeeded_count(rs: Seq<ImageView>) -> nat
    decreases rs.len(),
{
    if rs.len() == 0 {
        0
    } else {
        succeeded_count(rs.drop_last()) + if rs.last().ok {
            1nat
        } else {
            0nat
        }
    }
}

pub open spec fn question_count(rs: Seq<ImageView>) -> nat
    decreases rs.len(),
{
    if rs.len() == 0 {
        0
    } else {
        question_count(rs.drop_last()) + rs.last().questions.len()
    }
}

pub open spec fn figures_in(qs: Seq<QuestionView>) -> nat
    decreases qs.len(),
{
    if qs.len() == 0 {
        0
    } else {
        figures_in(qs.drop_last()) + if qs.last().has_figure {
            1nat
        } else {
            0nat
        }
    }
}

pub open spec fn outside_in(qs: Seq<QuestionView>) -> nat
    decreases qs.len(),
{
    if qs.len() == 0 {
        0
    } else {
        outside_in(qs.drop_last()) + if !qs.last().in_tree {
            1nat
        } else {
            0nat
        }
    }
}

pub open spec fn figure_count(rs: Seq<ImageView>) -> nat
    decreases rs.len(),
{
    if rs.len() == 0 {
        0
    } else {
        figure_count(rs.drop_last()) + figures_in(rs.last().questions)
    }
}

pub open spec fn outside_count(rs: Seq<ImageView>) -> nat
    decreases rs.len(),
{
    if rs.len() == 0 {
        0
    } else {
        outside_count(rs.drop_last()) + outside_in(rs.last().questions)
    }
}

pub open spec fn token_sum(rs: Seq<ImageView>) -> nat
    decreases rs.len(),
{
    if rs.len() == 0 {
        0
    } else {
        token_sum(rs.drop_last()) + rs.last().total_tokens as nat
    }
}

proof fn lemma_counts_bounded(qs: Seq<QuestionView>)
    ensures
        figures_in(qs) <= qs.len(),
        outside_in(qs) <= qs.len(),
    decreases qs.len(),
{
    if qs.len() > 0 {
        lemma_counts_bounded(qs.drop_last());
    }
}

proof fn lemma_totals_bounded(rs: Seq<ImageView>)
    ensures
        succeeded_count(rs) <= rs.len(),
        figure_count(rs) <= question_count(rs),
        outside_count(rs) <= question_count(rs),
    decreases rs.len(),
{
    if rs.len() > 0 {
        lemma_totals_bounded(rs.drop_last());
        lemma_counts_bounded(rs.last().questions);
    }
}

proof fn lemma_prefix_sums(rs: Seq<ImageView>, i: int)
    requires
        0 <= i <= rs.len(),
    ensures
        question_count(rs.take(i)) <= question_count(rs),
        token_sum(rs.take(i)) <= token_sum(rs),
    decreases rs.len(),
{
    if i < rs.len() {
        assert(rs.drop_last().take(i) =~= rs.take(i));
        lemma_prefix_sums(rs.drop_last(), i);
    } else {
        assert(rs.take(i) =~= rs);
    }
}

/// The batch summary: images, how many succeeded and failed, questions in
/// all, questions with a figure, questions whose id is not in the tree, and
/// the tokens used. The sums must fit their integer types.
pub fn summarize(results: &Vec<ImageResult>) -> (s: RunSummary)
    requires
        question_count(views_of_results(results@)) <= usize::MAX,
        token_sum(views_of_results(results@)) <= u64::MAX,
    ensures
        s.images == results@.len(),
        s.succeeded == succeeded_count(views_of_results(results@)),
        s.failed == results@.len() - succeeded_count(views_of_results(results@)),
        s.questions == question_count(views_of_results(results@)),
        s.with_figure == figure_count(views_of_results(results@)),
        s.not_in_tree == outside_count(views_of_results(results@)),
        s.total_tokens == token_sum(views_of_results(results@)),
{
    let ghost rv = views_of_results(results@);
    let mut ok: usize = 0;
    let mut qn: usize = 0;
    let mut fig: usize = 0;
    let mut outside: usize = 0;
    let mut tokens: u64 = 0;
    let mut i: usize = 0;
    proof {
        lemma_totals_bounded(rv);
    }
    while i < results.len()
        invariant
            0 <= i <= results@.len(),
            rv == views_of_results(results@),
            question_count(rv) <= usize::MAX,
            token_sum(rv) <= u64::MAX,
            ok == succeeded_count(rv.take(i as int)),
            qn == question_count(rv.take(i as int)),
            fig == figure_count(rv.take(i as int)),
            outside == outside_count(rv.take(i as int)),
            tokens == token_sum(rv.take(i as int)),
        decreases results@.len() - i,
    {
        let r = &results[i];
        let ghost t1 = rv.take(i + 1);
        proof {
            assert(t1.drop_last() =~= rv.take(i as int));
            assert(t1.last() == r@);
            lemma_prefix_sums(rv, i + 1);
            lemma_totals_bounded(t1);
        }
        if r.ok {
            ok = ok + 1;
        }
        let mut j: usize = 0;
        let ghost qs = r@.questions;
        let ghost fig0 = fig;
        let ghost out0 = outside;
        while j < r.questions.len()
            invariant
                0 <= j <= qs.len(),
                qs == r@.questions,
                fig == fig0 + figures_in(qs.take(j as int)),
                outside == out0 + outside_in(qs.take(j as int)),
                fig0 + figures_in(qs) <= usize::MAX,
                out0 + outside_in(qs) <= usize::MAX,
            decreases qs.len() - j,
        {
            proof {
                assert(qs.take(j + 1).drop_last() =~= qs.take(j as int));
                assert(qs.take(j + 1).last() == r.questions@[j as int]@);
                lemma_prefix_le(qs, j + 1);
            }
            if r.questions[j].has_figure {
                fig = fig + 1;
            }
            if !r.questions[j].in_tree {
                outside = outside + 1;
            }
            j = j + 1;
        }
        proof {
            assert(qs.take(qs.len() as int) =~= qs);
        }
        qn = qn + r.questions.len();
        tokens = tokens + r.total_tokens;
        i = i + 1;
    }
    proof {
        assert(rv.take(rv.len() as int) =~= rv);
    }
    RunSummary {
        images: results.len(),
        succeeded: ok,
        failed: results.len() - ok,
        questions: qn,
        with_figure: fig,
        not_in_tree: outside,
        total_tokens: tokens,
    }
}

proof fn lemma_prefix_le(qs: Seq<QuestionView>, k: int)
    requires
        0 <= k <= qs.len(),
    ensures
        figures_in(qs.take(k)) <= figures_in(qs),
        outside_in(qs.take(k)) <= outside_in(qs),
    decreases qs.len(),
{
    if k < qs.len() {
        assert(qs.drop_last().take(k) =~= qs.take(k));
        lemma_prefix_le(qs.drop_last(), k);
    } else {
        assert(qs.take(k) =~= qs);
    }
}

/// No more images succeed than there are, and no more questions have a
/// figure or an id outside the tree than there are questions.
pub proof fn law_summary_counts_bounded(rs: Seq<ImageView>)
    ensures
        succeeded_count(rs) <= rs.len(),
        figure_count(rs) <= question_count(rs),
        outside_count(rs) <= question_count(rs),
{
    lemma_totals_bounded(rs);
}

proof fn lemma_figures_filter(qs: Seq<QuestionView>)
    ensures
        figures_in(qs) == qs.filter(|q: QuestionView| q.has_figure).len(),
        outside_in(qs) == qs.filter(|q: QuestionView| !q.in_tree).len(),
    decreases qs.len(),
{
    reveal(Seq::filter);
    if qs.len() > 0 {
        lemma_figures_filter(qs.drop_last());
    }
}

/// The summary of one image: it counts as succeeded exactly when it was read,
/// its questions, those with a figure, those whose id is not in the tree, and
/// its tokens, whether or not its reply could be read.
pub proof fn law_summary_of_one(r: ImageView)
    ensures
        succeeded_count(seq![r]) == (if r.ok {
            1nat
        } else {
            0nat
        }),
        question_count(seq![r]) == r.questions.len(),
        figure_count(seq![r]) == r.questions.filter(|q: QuestionView| q.has_figure).len(),
        outside_count(seq![r]) == r.questions.filter(|q: QuestionView| !q.in_tree).len(),
        token_sum(seq![r]) == r.total_tokens,
{
    let one = seq![r];
    let none = Seq::<ImageView>::empty();
    assert(one.drop_last() =~= none);
    assert(one.last() == r);
    assert(succeeded_count(none) == 0 && question_count(none) == 0 && token_sum(none) == 0);
    assert(figure_count(none) == 0 && outside_count(none) == 0);
    lemma_figures_filter(r.questions);
}

/// Each count of the summary of two batches run one after the other is the
/// sum of the two summaries' counts: every image counts, the failed ones too.
pub proof fn law_summary_additive(a: Seq<ImageView>, b: Seq<ImageView>)
    ensures
        succeeded_count(a + b) == succeeded_count(a) + succeeded_count(b),
        question_count(a + b) == question_count(a) + question_count(b),
        figure_count(a + b) == figure_count(a) + figure_count(b),
        outside_count(a + b) == outside_count(a) + outside_count(b),
        token_sum(a + b) == token_sum(a) + token_sum(b),
    decreases b.len(),
{
    if b.len() == 0 {
        assert(a + b =~= a);
    } else {
        law_summary_additive(a, b.drop_last());
        assert((a + b).drop_last() =~= a + b.drop_last());
        assert((a + b).last() == b.last());
    }
}

// ---------------------------------------------------------------------------
// Reading a graded table
// ---------------------------------------------------------------------------
/// Index of the first column titled `name`.
pub fn column_position(headers: &Vec<String>, name: &str) -> (r: Option<usize>)
    ensures
        match r {
            Some(i) => i < headers@.len() && headers@[i as int]@ == name@ && forall|j: int|
                0 <= j < i ==> headers@[j]@ != name@,
            None => forall|j: int| 0 <= j < headers@.len() ==> headers@[j]@ != name@,
        },
{
    let key = String::from_str(name);
    let mut i: usize = 0;
    while i < headers.len()
        invariant
            0 <= i <= headers@.len(),
            key@ == name@,
            forall|j: int| 0 <= j < i ==> headers@[j]@ != name@,
        decreases headers@.len() - i,
    {
        if headers[i] == key {
            return Some(i);
        }
        i = i + 1;
    }
    None
}

/// The text of a cell: empty where the column is unknown or the row is short.
pub fn cell_text(record: &Vec<String>, column: Option<usize>) -> (r: String)
    ensures
        r@ == match column {
            Some(i) => if i < record@.len() {
                record@[i as int]@
            } else {
                Seq::<char>::empty()
            },
            None => Seq::<char>::empty(),
        },
{
    match column {
        Some(i) => if i < record.len() {
            record[i].clone()
        } else {
            String::new()
        },
        None => String::new(),
    }
}

/// The trimmed text of a cell, or nothing where it is blank (an ungraded cell).
pub fn nonblank(s: &str) -> (r: Option<String>)
    ensures
        match r {
            Some(t) => trim(s@).len() > 0 && t@ == trim(s@),
            None => trim(s@).len() == 0,
        },
{
    let t = strip_str(s, Strip::Whitespace);
    if t.as_str().is_empty() {
        None
    } else {
        Some(t)
    }
}

} // verus!
