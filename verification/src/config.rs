//! The endpoint settings (`.env` text), the endpoint URL, and the system
//! prompt that lists the knowledge points.
use vstd::prelude::*;
use crate::knowledge::{PointRef, PointView};
use crate::text::{
    chars_of, concat2, concat3, ends_with, first_index, has_suffix, lemma_first_index,
    lemma_first_index_none, strip_back, strip_back_to, strip_both, strip_bounds, str_eq, string_of,
    trim, join_with, Strip,
};

verus! {

/// The endpoint settings.
pub struct Config {
    pub base_url: String,
    pub key: String,
    pub model: String,
    pub ca_cert: String,
}

#[verifier::ext_equal]
pub struct EnvValues {
    pub base_url: Seq<char>,
    pub key: Seq<char>,
    pub model: Seq<char>,
    pub ca_cert: Seq<char>,
}

pub open spec fn no_values() -> EnvValues {
    EnvValues { base_url: seq![], key: seq![], model: seq![], ca_cert: seq![] }
}

/// The text cut at each newline (the last piece may be empty).
pub open spec fn split_lines(s: Seq<char>) -> Seq<Seq<char>>
    decreases s.len(),
{
    if s.len() == 0 {
        seq![seq![]]
    } else {
        let rest = split_lines(s.drop_last());
        if s.last() == '\n' {
            rest.push(seq![])
        } else {
            rest.update(rest.len() - 1, rest.last().push(s.last()))
        }
    }
}

/// The key and value a line assigns: blank lines and `#` comments assign
/// nothing; otherwise the text before the first `=` (trimmed) and after it
/// (trimmed, then stripped of double and then of single quotes).
pub open spec fn env_assignment(seg: Seq<char>) -> Option<(Seq<char>, Seq<char>)> {
    let line = trim(seg);
    if line.len() == 0 || line[0] == '#' {
        None
    } else {
        match first_index(line, '=') {
            None => None,
            Some(i) => Some(
                (
                    trim(line.take(i)),
                    strip_both(strip_both(trim(line.skip(i + 1)), Strip::Only('"')), Strip::Only('\'')),
                ),
            ),
        }
    }
}

pub open spec fn apply_line(acc: EnvValues, seg: Seq<char>) -> EnvValues {
    match env_assignment(seg) {
        Some((k, v)) => if k == "NEWAPI_BASE_URL"@ {
            EnvValues { base_url: v, ..acc }
        } else if k == "NEWAPI_KEY"@ {
            EnvValues { key: v, ..acc }
        } else if k == "NEWAPI_MODEL"@ {
            EnvValues { model: v, ..acc }
        } else if k == "NEWAPI_CA_CERT"@ {
            EnvValues { ca_cert: v, ..acc }
        } else {
            acc
        },
        None => acc,
    }
}

pub open spec fn apply_lines(acc: EnvValues, lines: Seq<Seq<char>>) -> EnvValues
    decreases lines.len(),
{
    if lines.len() == 0 {
        acc
    } else {
        apply_line(apply_lines(acc, lines.drop_last()), lines.last())
    }
}

/// The four settings a `.env` text gives; a later line overrides an earlier one.
pub open spec fn env_values(content: Seq<char>) -> EnvValues {
    apply_lines(no_values(), split_lines(content))
}

pub open spec fn config_missing_message() -> Seq<char> {
    "NEWAPI_BASE_URL / NEWAPI_KEY / NEWAPI_MODEL 三项缺一不可"@
}

proof fn lemma_split_lines_append(c: Seq<char>, line: Seq<char>)
    requires
        forall|i: int| 0 <= i < line.len() ==> line[i] != '\n',
    ensures
        split_lines(c + seq!['\n'] + line) == split_lines(c).push(line),
    decreases line.len(),
{
    let s = c + seq!['\n'] + line;
    if line.len() == 0 {
        assert(s.drop_last() =~= c);
        assert(line =~= Seq::<char>::empty());
    } else {
        let l2 = line.drop_last();
        lemma_split_lines_append(c, l2);
        assert(s.drop_last() =~= c + seq!['\n'] + l2);
        assert(s.last() == line.last());
        let rest = split_lines(c).push(l2);
        assert(rest.update(rest.len() - 1, rest.last().push(line.last())) =~= split_lines(c).push(
            line,
        )) by {
            assert(l2.push(line.last()) =~= line);
        }
    }
}

/// A line added at the end of the settings text is applied last, so it
/// overrides what earlier lines set for the same key.
pub proof fn law_later_line_wins(c: Seq<char>, line: Seq<char>)
    requires
        forall|i: int| 0 <= i < line.len() ==> line[i] != '\n',
    ensures
        env_values(c + seq!['\n'] + line) == apply_line(env_values(c), line),
{
    lemma_split_lines_append(c, line);
    let ls = split_lines(c);
    assert(ls.push(line).drop_last() =~= ls);
}

struct EnvAcc {
    base_url: String,
    key: String,
    model: String,
    ca_cert: String,
}

impl View for EnvAcc {
    type V = EnvValues;

    closed spec fn view(&self) -> EnvValues {
        EnvValues {
            base_url: self.base_url@,
            key: self.key@,
            model: self.model@,
            ca_cert: self.ca_cert@,
        }
    }
}

fn apply_line_exec(acc: &mut EnvAcc, v: &Vec<char>, lo: usize, hi: usize)
    requires
        lo <= hi <= v@.len(),
    ensures
        final(acc)@ == apply_line(old(acc)@, v@.subrange(lo as int, hi as int)),
{
    let ghost seg = v@.subrange(lo as int, hi as int);
    let (a, b) = strip_bounds(v, lo, hi, Strip::Whitespace);
    let ghost line = v@.subrange(a as int, b as int);
    assert(line == trim(seg));
    if a == b || v[a] == '#' {
        return;
    }
    let mut j = a;
    while j < b && v[j] != '='
        invariant
            a <= j <= b <= v@.len(),
            forall|x: int| a <= x < j ==> v@[x] != '=',
        decreases b - j,
    {
        j = j + 1;
    }
    if j == b {
        proof {
            assert forall|x: int| 0 <= x < line.len() implies line[x] != '=' by {
                assert(line[x] == v@[a + x]);
            }
            lemma_first_index_none(line, '=');
        }
        return;
    }
    proof {
        assert forall|x: int| 0 <= x < j - a implies line[x] != '=' by {
            assert(line[x] == v@[a + x]);
        }
        lemma_first_index(line, '=', j - a);
        assert(line.take(j - a) =~= v@.subrange(a as int, j as int));
        assert(line.skip(j - a + 1) =~= v@.subrange(j + 1, b as int));
    }
    let (ka, kb) = strip_bounds(v, a, j, Strip::Whitespace);
    let (va, vb) = strip_bounds(v, j + 1, b, Strip::Whitespace);
    let (qa, qb) = strip_bounds(v, va, vb, Strip::Only('"'));
    let (sa, sb) = strip_bounds(v, qa, qb, Strip::Only('\''));
    let key = string_of(v, ka, kb);
    let value = string_of(v, sa, sb);
    if str_eq(key.as_str(), "NEWAPI_BASE_URL") {
        acc.base_url = value;
    } else if str_eq(key.as_str(), "NEWAPI_KEY") {
        acc.key = value;
    } else if str_eq(key.as_str(), "NEWAPI_MODEL") {
        acc.model = value;
    } else if str_eq(key.as_str(), "NEWAPI_CA_CERT") {
        acc.ca_cert = value;
    }
}

/// Reads the endpoint settings from the text of a `.env` file: one
/// `KEY=value` per line, blank lines and `#` comments skipped, quotes around
/// values removed, later lines winning. Base URL, key and model must be set.
pub fn parse_env(content: &str) -> (r: Result<Config, String>)
    ensures
        ({
            let ev = env_values(content@);
            if ev.base_url.len() == 0 || ev.key.len() == 0 || ev.model.len() == 0 {
                r is Err && r->Err_0@ == config_missing_message()
            } else {
                r is Ok && r->Ok_0.base_url@ == ev.base_url && r->Ok_0.key@ == ev.key
                    && r->Ok_0.model@ == ev.model && r->Ok_0.ca_cert@ == ev.ca_cert
            }
        }),
{
    let v = chars_of(content);
    let mut acc = EnvAcc {
        base_url: String::new(),
        key: String::new(),
        model: String::new(),
        ca_cert: String::new(),
    };
    let mut seg_start: usize = 0;
    let mut i: usize = 0;
    proof {
        assert(v@.take(0) =~= Seq::<char>::empty());
        assert(split_lines(Seq::<char>::empty()) == seq![Seq::<char>::empty()]);
        assert(seq![Seq::<char>::empty()].drop_last() =~= Seq::<Seq<char>>::empty());
        assert(acc@ =~= no_values());
    }
    while i < v.len()
        invariant
            0 <= seg_start <= i <= v@.len(),
            v@ == content@,
            split_lines(v@.take(i as int)).len() >= 1,
            split_lines(v@.take(i as int)).last() == v@.subrange(seg_start as int, i as int),
            acc@ == apply_lines(no_values(), split_lines(v@.take(i as int)).drop_last()),
        decreases v@.len() - i,
    {
        let ghost pre = v@.take(i as int);
        let ghost post = v@.take(i + 1);
        proof {
            assert(post.drop_last() =~= pre);
            assert(post.last() == v@[i as int]);
        }
        if v[i] == '\n' {
            apply_line_exec(&mut acc, &v, seg_start, i);
            proof {
                let ls = split_lines(pre);
                assert(split_lines(post) == ls.push(seq![]));
                assert(ls.push(seq![]).drop_last() =~= ls);
                assert(ls.drop_last().push(ls.last()) =~= ls);
                assert(apply_lines(no_values(), ls) == apply_line(
                    apply_lines(no_values(), ls.drop_last()),
                    ls.last(),
                ));
                assert(v@.subrange(i + 1, i + 1) =~= Seq::<char>::empty());
            }
            seg_start = i + 1;
        } else {
            proof {
                let ls = split_lines(pre);
                let ls2 = ls.update(ls.len() - 1, ls.last().push(v@[i as int]));
                assert(split_lines(post) == ls2);
                assert(ls2.drop_last() =~= ls.drop_last());
                assert(ls2.last() =~= v@.subrange(seg_start as int, i + 1));
            }
        }
        i = i + 1;
    }
    apply_line_exec(&mut acc, &v, seg_start, v.len());
    proof {
        let ls = split_lines(v@.take(i as int));
        assert(v@.take(i as int) =~= v@);
        assert(ls.drop_last().push(ls.last()) =~= ls);
        assert(apply_lines(no_values(), ls) == apply_line(
            apply_lines(no_values(), ls.drop_last()),
            ls.last(),
        ));
    }
    if acc.base_url.as_str().is_empty() || acc.key.as_str().is_empty() || acc.model.as_str().is_empty() {
        proof {
            assert(acc.base_url@.len() == 0 || acc.key@.len() == 0 || acc.model@.len() == 0);
        }
        return Err(String::from_str("NEWAPI_BASE_URL / NEWAPI_KEY / NEWAPI_MODEL 三项缺一不可"));
    }
    Ok(Config { base_url: acc.base_url, key: acc.key, model: acc.model, ca_cert: acc.ca_cert })
}

// ---------------------------------------------------------------------------
// The endpoint URL
// ---------------------------------------------------------------------------
/// The chat-completions URL for a base URL: trailing slashes removed, then
/// `/chat/completions` or `/v1/chat/completions` added unless already there.
pub open spec fn endpoint_of(base: Seq<char>) -> Seq<char> {
    let url = strip_back(base, Strip::Only('/'));
    if has_suffix(url, "/chat/completions"@) {
        url
    } else if has_suffix(url, "/v1"@) {
        url + "/chat/completions"@
    } else {
        url + "/v1/chat/completions"@
    }
}

pub fn normalize_endpoint(base: &str) -> (r: String)
    ensures
        r@ == endpoint_of(base@),
        has_suffix(strip_back(base@, Strip::Only('/')), "/chat/completions"@) ==> r@ == strip_back(
            base@,
            Strip::Only('/'),
        ),
{
    let v = chars_of(base);
    let b = strip_back_to(&v, 0, v.len(), Strip::Only('/'));
    assert(v@.subrange(0, v@.len() as int) =~= v@);
    let url = string_of(&v, 0, b);
    if ends_with(url.as_str(), "/chat/completions") {
        url
    } else if ends_with(url.as_str(), "/v1") {
        concat2(url.as_str(), "/chat/completions")
    } else {
        concat2(url.as_str(), "/v1/chat/completions")
    }
}

/// The endpoint always ends with `/chat/completions`.
pub proof fn law_endpoint_suffix(base: Seq<char>)
    ensures
        has_suffix(endpoint_of(base), "/chat/completions"@),
{
    reveal_strlit("/chat/completions");
    reveal_strlit("/v1/chat/completions");
    let url = strip_back(base, Strip::Only('/'));
    let t = "/chat/completions"@;
    if !has_suffix(url, t) {
        if has_suffix(url, "/v1"@) {
            let r = url + t;
            assert(r.subrange(r.len() - t.len(), r.len() as int) =~= t);
        } else {
            let r = url + "/v1/chat/completions"@;
            assert(r.subrange(r.len() - t.len(), r.len() as int) =~= t);
        }
    }
}

/// A base URL that already names the chat-completions endpoint (ending with
/// `/chat/completions` once trailing slashes are removed, with or without
/// `/v1`) is used as it is, without those slashes.
pub proof fn law_full_url_kept(base: Seq<char>)
    requires
        has_suffix(strip_back(base, Strip::Only('/')), "/chat/completions"@),
    ensures
        endpoint_of(base) == strip_back(base, Strip::Only('/')),
{
}

/// The endpoint is the base URL without its trailing slashes, followed by
/// nothing, by `/chat/completions`, or by `/v1/chat/completions`.
pub proof fn law_endpoint_extends_base(base: Seq<char>)
    ensures
        ({
            let url = strip_back(base, Strip::Only('/'));
            let r = endpoint_of(base);
            &&& url.len() <= r.len()
            &&& r.take(url.len() as int) == url
            &&& {
                ||| r.skip(url.len() as int) == Seq::<char>::empty()
                ||| r.skip(url.len() as int) == "/chat/completions"@
                ||| r.skip(url.len() as int) == "/v1/chat/completions"@
            }
        }),
{
    let url = strip_back(base, Strip::Only('/'));
    let r = endpoint_of(base);
    assert(r.take(url.len() as int) =~= url);
    if has_suffix(url, "/chat/completions"@) {
        assert(r.skip(url.len() as int) =~= Seq::<char>::empty());
    } else if has_suffix(url, "/v1"@) {
        assert(r.skip(url.len() as int) =~= "/chat/completions"@);
    } else {
        assert(r.skip(url.len() as int) =~= "/v1/chat/completions"@);
    }
}

/// Normalizing an endpoint a second time changes nothing.
pub proof fn law_endpoint_idempotent(base: Seq<char>)
    ensures
        endpoint_of(endpoint_of(base)) == endpoint_of(base),
{
    reveal_strlit("/chat/completions");
    law_endpoint_suffix(base);
    let r = endpoint_of(base);
    let t = "/chat/completions"@;
    assert(r.last() == r.subrange(r.len() - t.len(), r.len() as int)[t.len() - 1]);
    assert(r.last() == 's');
    assert(strip_back(r, Strip::Only('/')) == r);
}

// ---------------------------------------------------------------------------
// The system prompt
// ---------------------------------------------------------------------------
/// The fixed instructions that open the system prompt.
pub const SYSTEM_PROMPT_HEAD: &'static str = r#"你是浙江初中数学错题识别助手。我会给你一张图，图中通常有多道数学题（错题本常一页多题）。请识别图中【每一道】题：转写题干（数学符号尽量用 Unicode：√ ² ³ △ ⊥ ∠ ° π ≤ ≥ ≠ ∽ ≌，不要用反斜杠 LaTeX 命令如 \sqrt \triangle，以免 JSON 转义出错；忽略手写笔迹 / 批改 / 答案），并从给定知识点清单选最匹配的 id。

只输出一个 JSON 数组，每个元素是一道题：
[{"题号":"图中题号如 4 / 16，没有就空","read_text":"题干，数学符号用 Unicode 不用反斜杠","has_figure":true 或 false,"primary_kp_id":"清单中真实 id","primary_kp_name":"知识点名","alt_kp_ids":["备选id"],"confidence":0 到 1 的小数,"reason":"一句话归类依据"}]

只能用清单中真实存在的 id，绝不自造；尽量归到最细的「点」级，把握不大可只到「节」/「章」级并相应调低 confidence。不要写解释、不要用 markdown 代码块。

知识点清单（格式 id | 册 > 章 > 节 > 点）：
"#;

/// One line of the point list: `id | path`.
pub open spec fn point_line(p: PointView) -> Seq<char> {
    p.id + " | "@ + p.path
}

pub open spec fn system_prompt(points: Seq<PointView>) -> Seq<char> {
    SYSTEM_PROMPT_HEAD@ + join_with(points.map_values(|p: PointView| point_line(p)), "\n"@)
}

/// The system prompt: the fixed instructions, then one `id | path` line per point.
pub fn build_system_prompt(points: &Vec<PointRef>) -> (r: String)
    ensures
        r@ == system_prompt(points@.map_values(|p: PointRef| p@)),
{
    let ghost pv = points@.map_values(|p: PointRef| p@);
    let mut block = String::new();
    let mut i: usize = 0;
    while i < points.len()
        invariant
            0 <= i <= points@.len(),
            pv == points@.map_values(|p: PointRef| p@),
            block@ == join_with(pv.take(i as int).map_values(|p: PointView| point_line(p)), "\n"@),
        decreases points@.len() - i,
    {
        let ghost prev = block@;
        let line = concat3(points[i].id.as_str(), " | ", points[i].path.as_str());
        let ghost lines_i = pv.take(i as int).map_values(|p: PointView| point_line(p));
        let ghost lines_n = pv.take(i + 1).map_values(|p: PointView| point_line(p));
        proof {
            assert(lines_n.drop_last() =~= lines_i);
            assert(lines_n.last() == line@);
        }
        if i > 0 {
            block.append("\n");
        } else {
            assert(Seq::<char>::empty() + line@ =~= line@);
        }
        block.append(line.as_str());
        i = i + 1;
    }
    proof {
        assert(pv.take(pv.len() as int) =~= pv);
    }
    concat2(SYSTEM_PROMPT_HEAD, block.as_str())
}


/// The system prompt lists the points one per line, in order, each as
/// `id | path`, after the fixed instructions: with no point it is the
/// instructions alone, with one point the instructions and that point's line,
/// and one more point adds a newline and its line at the end.
pub proof fn law_system_prompt_lines(points: Seq<PointView>, p: PointView)
    ensures
        system_prompt(Seq::<PointView>::empty()) == SYSTEM_PROMPT_HEAD@,
        system_prompt(seq![p]) == SYSTEM_PROMPT_HEAD@ + p.id + " | "@ + p.path,
        points.len() > 0 ==> system_prompt(points.push(p)) == system_prompt(points) + "\n"@ + p.id
            + " | "@ + p.path,
{
    let none = Seq::<PointView>::empty();
    assert(none.map_values(|q: PointView| point_line(q)) =~= Seq::<Seq<char>>::empty());
    assert(SYSTEM_PROMPT_HEAD@ + Seq::<char>::empty() =~= SYSTEM_PROMPT_HEAD@);
    let one = seq![p].map_values(|q: PointView| point_line(q));
    assert(one =~= seq![point_line(p)]);
    assert(SYSTEM_PROMPT_HEAD@ + point_line(p) =~= SYSTEM_PROMPT_HEAD@ + p.id + " | "@ + p.path);
    if points.len() > 0 {
        let lines = points.map_values(|q: PointView| point_line(q));
        let more = points.push(p).map_values(|q: PointView| point_line(q));
        assert(more =~= lines.push(point_line(p)));
        assert(more.drop_last() =~= lines);
        assert(join_with(more, "\n"@) == join_with(lines, "\n"@) + "\n"@ + point_line(p));
        assert(SYSTEM_PROMPT_HEAD@ + (join_with(lines, "\n"@) + "\n"@ + point_line(p))
            =~= system_prompt(points) + "\n"@ + p.id + " | "@ + p.path);
    }
}

} // verus!
