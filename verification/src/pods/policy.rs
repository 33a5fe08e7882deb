//! Instance policies: how a pod launches an isolated copy of an app.
//!
//! The pod logic ships no application knowledge: the shipped set is empty,
//! and per-product flags come from a policy file of lines
//! `app=NAME|data_dir_flag=FLAG[|extra_flag=FLAG]`, matched by the app's
//! witnessed name.

use vstd::prelude::*;
use crate::chars::{has_char, lines_of, piece_views, slice, split_all, split_all_char, split_once,
    split_once_char, text_lines};
use crate::text::{chars_of, concat2, decimal, fmt_u64, str_eq, string_of, to_owned_string, trim,
    trim_bounds};

verus! {

pub const POLICY_HEADER: &'static str = "# evo-instance-policies-v1";

/// How one app launches isolated.
#[derive(Debug, Clone, PartialEq, Eq)]
pub struct InstancePolicy {
    /// Witnessed application name this policy applies to.
    pub app: String,
    /// Flag prefix; a launch passes `{prefix}{pod_profile_dir}`.
    pub data_dir_flag: String,
    /// Optional secondary isolation flag (same substitution).
    pub extra_flag: Option<String>,
}

/// The content of an [`InstancePolicy`].
pub struct PolicyModel {
    pub app: Seq<char>,
    pub data_dir_flag: Seq<char>,
    pub extra_flag: Option<Seq<char>>,
}

impl View for InstancePolicy {
    type V = PolicyModel;

    open spec fn view(&self) -> PolicyModel {
        PolicyModel {
            app: self.app@,
            data_dir_flag: self.data_dir_flag@,
            extra_flag: match self.extra_flag {
                Some(e) => Some(e@),
                None => None,
            },
        }
    }
}

/// The content of each policy.
pub open spec fn policy_views(v: Seq<InstancePolicy>) -> Seq<PolicyModel> {
    v.map_values(|p: InstancePolicy| p@)
}

/// The characters of each string.
pub open spec fn texts_of(v: Seq<String>) -> Seq<Seq<char>> {
    v.map_values(|s: String| s@)
}

/// The text `format!("{:?}", s)` gives for a string: its quoted,
/// escaped form.
pub uninterp spec fn debug_text(s: Seq<char>) -> Seq<char>;

/// `format!("{s:?}")`: the quoted, escaped form of a string. The escaping
/// rule is left unnamed beyond being a function of the text.
#[verifier::external_body]
pub(crate) fn debug_quoted(s: &str) -> (r: String)
    ensures
        r@ == debug_text(s@),
{
    format!("{s:?}")
}

/// The fields of a line's `key=value` pairs, keys and values trimmed; the
/// first pair without `=` when there is one.
pub open spec fn fields_of(pairs: Seq<Seq<char>>) -> Result<Seq<(Seq<char>, Seq<char>)>, Seq<char>>
    decreases pairs.len(),
{
    if pairs.len() == 0 {
        Ok(Seq::empty())
    } else {
        match split_once(pairs[0], '=') {
            None => Err(pairs[0]),
            Some((k, v)) => match fields_of(pairs.drop_first()) {
                Ok(fs) => Ok(seq![(trim(k), trim(v))] + fs),
                Err(p) => Err(p),
            },
        }
    }
}

/// The value of the last field named `key` (a later field replaces an
/// earlier one).
pub open spec fn last_value(fields: Seq<(Seq<char>, Seq<char>)>, key: Seq<char>) -> Option<Seq<char>>
    decreases fields.len(),
{
    if fields.len() == 0 {
        None
    } else if fields.last().0 == key {
        Some(fields.last().1)
    } else {
        last_value(fields.drop_last(), key)
    }
}

/// A field value, when present and non-empty.
pub open spec fn nonempty_value(fields: Seq<(Seq<char>, Seq<char>)>, key: Seq<char>) -> Option<
    Seq<char>,
> {
    match last_value(fields, key) {
        Some(v) => if v.len() > 0 {
            Some(v)
        } else {
            None
        },
        None => None,
    }
}

/// `line N: ` with the line number counted from one.
pub open spec fn line_prefix(index: int) -> Seq<char> {
    "line "@ + decimal((index + 1) as nat) + ": "@
}

/// What one line of a policy file is.
pub enum LineOutcome {
    Skip,
    Error(Seq<char>),
    Policy(PolicyModel),
}

/// What the trimmed line `line` at `index` is: blank lines and comments
/// are skipped; otherwise every pair needs `=`, and `app` and
/// `data_dir_flag` need non-empty values.
pub open spec fn line_outcome(line: Seq<char>, index: int) -> LineOutcome {
    if line.len() == 0 || line[0] == '#' {
        LineOutcome::Skip
    } else {
        match fields_of(split_all(line, '|')) {
            Err(pair) => LineOutcome::Error(
                line_prefix(index) + "expected key=value, got "@ + debug_text(pair),
            ),
            Ok(fields) => match nonempty_value(fields, "app"@) {
                None => LineOutcome::Error(line_prefix(index) + "missing app="@),
                Some(app) => match nonempty_value(fields, "data_dir_flag"@) {
                    None => LineOutcome::Error(line_prefix(index) + "missing data_dir_flag="@),
                    Some(flag) => LineOutcome::Policy(
                        PolicyModel {
                            app,
                            data_dir_flag: flag,
                            extra_flag: nonempty_value(fields, "extra_flag"@),
                        },
                    ),
                },
            },
        }
    }
}

/// The policies of the lines from `index` on, or the first line's error.
pub open spec fn policies_from(lines: Seq<Seq<char>>, index: int) -> Result<Seq<PolicyModel>, Seq<char>>
    decreases lines.len() - index,
{
    if index < 0 || index >= lines.len() {
        Ok(Seq::empty())
    } else {
        match line_outcome(trim(lines[index]), index) {
            LineOutcome::Skip => policies_from(lines, index + 1),
            LineOutcome::Error(m) => Err(m),
            LineOutcome::Policy(p) => match policies_from(lines, index + 1) {
                Ok(ps) => Ok(seq![p] + ps),
                Err(m) => Err(m),
            },
        }
    }
}

/// The policies a policy file declares.
pub open spec fn parse_policies_spec(text: Seq<char>) -> Result<Seq<PolicyModel>, Seq<char>> {
    policies_from(text_lines(text), 0)
}

/// One policy line without its newline: `app=A|data_dir_flag=F`, then
/// `|extra_flag=E` when there is an extra flag.
pub open spec fn policy_body(p: PolicyModel) -> Seq<char> {
    "app"@ + seq!['='] + p.app + seq!['|'] + "data_dir_flag"@ + seq!['='] + p.data_dir_flag
        + match p.extra_flag {
        Some(e) => seq!['|'] + "extra_flag"@ + seq!['='] + e,
        None => Seq::empty(),
    }
}

/// One policy line, newline-terminated.
pub open spec fn policy_line(p: PolicyModel) -> Seq<char> {
    policy_body(p) + seq!['\n']
}

/// The policy lines of `ps`, in order.
pub open spec fn policy_lines(ps: Seq<PolicyModel>) -> Seq<char>
    decreases ps.len(),
{
    if ps.len() == 0 {
        Seq::empty()
    } else {
        policy_lines(ps.drop_last()) + policy_line(ps.last())
    }
}

/// A policy file: the header line, then one line per policy.
pub open spec fn format_policies_spec(ps: Seq<PolicyModel>) -> Seq<char> {
    POLICY_HEADER@ + seq!['\n'] + policy_lines(ps)
}

fn trim_chars(v: &Vec<char>) -> (r: Vec<char>)
    ensures
        r@ == trim(v@),
{
    let (lo, hi) = trim_bounds(v);
    slice(v, lo, hi)
}

fn last_value_of(fields: &Vec<(Vec<char>, Vec<char>)>, key: &str) -> (r: Option<Vec<char>>)
    ensures
        match r {
            Some(v) => nonempty_value(crate::sorting::pair_views(fields@), key@) == Some(v@),
            None => nonempty_value(crate::sorting::pair_views(fields@), key@) is None,
        },
{
    let ghost fv = crate::sorting::pair_views(fields@);
    let mut i = fields.len();
    assert(fv.take(fields.len() as int) =~= fv);
    while i > 0
        invariant
            i <= fields.len(),
            fv == crate::sorting::pair_views(fields@),
            last_value(fv, key@) == last_value(fv.take(i as int), key@),
        decreases i,
    {
        let ghost t = fv.take(i as int);
        assert(t.last() == (fields@[i - 1].0@, fields@[i - 1].1@));
        let k = string_of(&fields[i - 1].0);
        if str_eq(k.as_str(), key) {
            let v = slice(&fields[i - 1].1, 0, fields[i - 1].1.len());
            assert(v@ =~= fields@[i - 1].1@);
            if v.len() == 0 {
                return None;
            }
            return Some(v);
        }
        assert(t.drop_last() =~= fv.take(i - 1));
        i = i - 1;
    }
    None
}

fn line_error(index: usize, rest: &str) -> (r: String)
    requires
        index < usize::MAX,
    ensures
        r@ == "line "@ + decimal((index + 1) as nat) + ": "@ + rest@,
{
    let n = fmt_u64(index as u64 + 1);
    let a = concat2("line ", n.as_str());
    let b = concat2(a.as_str(), ": ");
    concat2(b.as_str(), rest)
}

enum ExecOutcome {
    Skip,
    Error(String),
    Policy(InstancePolicy),
}

fn parse_line(raw: &Vec<char>, index: usize) -> (r: ExecOutcome)
    requires
        index < usize::MAX,
    ensures
        match r {
            ExecOutcome::Skip => line_outcome(trim(raw@), index as int) is Skip,
            ExecOutcome::Error(m) => line_outcome(trim(raw@), index as int) == LineOutcome::Error(
                m@,
            ),
            ExecOutcome::Policy(p) => line_outcome(trim(raw@), index as int)
                == LineOutcome::Policy(p@),
        },
{
    let line = trim_chars(raw);
    if line.len() == 0 || line[0] == '#' {
        return ExecOutcome::Skip;
    }
    let pairs = split_all_char(&line, '|');
    let ghost pv = piece_views(pairs@);
    let mut fields: Vec<(Vec<char>, Vec<char>)> = Vec::new();
    let mut i: usize = 0;
    assert(pv.skip(0) =~= pv);
    assert(crate::sorting::pair_views(fields@) + Seq::empty() =~= Seq::<(Seq<char>, Seq<char>)>::empty());
    while i < pairs.len()
        invariant
            i <= pairs.len(),
            index < usize::MAX,
            pv == piece_views(pairs@),
            pv == split_all(trim(raw@), '|'),
            trim(raw@).len() > 0,
            trim(raw@)[0] != '#',
            fields_of(pv) == match fields_of(pv.skip(i as int)) {
                Ok(fs) => Ok(crate::sorting::pair_views(fields@) + fs),
                Err(p) => Err(p),
            },
        decreases pairs.len() - i,
    {
        let ghost rest = pv.skip(i as int);
        assert(rest[0] == pairs@[i as int]@);
        assert(rest.drop_first() =~= pv.skip(i + 1));
        match split_once_char(&pairs[i], '=') {
            None => {
                let p = string_of(&pairs[i]);
                let d = debug_quoted(p.as_str());
                let msg = concat2("expected key=value, got ", d.as_str());
                let m = line_error(index, msg.as_str());
                assert(m@ =~= line_prefix(index as int) + "expected key=value, got "@ + debug_text(
                    pv[i as int],
                ));
                assert(fields_of(rest) == Err::<Seq<(Seq<char>, Seq<char>)>, Seq<char>>(rest[0]));
                assert(fields_of(pv) == Err::<Seq<(Seq<char>, Seq<char>)>, Seq<char>>(pv[i as int]));
                return ExecOutcome::Error(m);
            },
            Some((k, v)) => {
                let ghost before = crate::sorting::pair_views(fields@);
                let tk = trim_chars(&k);
                let tv = trim_chars(&v);
                fields.push((tk, tv));
                proof {
                    assert(crate::sorting::pair_views(fields@) =~= before.push((trim(k@), trim(v@))));
                    if fields_of(pv.skip(i + 1)) is Ok {
                        let fs = fields_of(pv.skip(i + 1))->Ok_0;
                        assert(before + (seq![(trim(k@), trim(v@))] + fs) =~= before.push(
                            (trim(k@), trim(v@)),
                        ) + fs);
                    }
                }
            },
        }
        i = i + 1;
    }
    assert(pv.skip(pairs.len() as int) =~= Seq::<Seq<char>>::empty());
    assert(fields_of(pv) == Ok::<Seq<(Seq<char>, Seq<char>)>, Seq<char>>(
        crate::sorting::pair_views(fields@),
    )) by {
        assert(crate::sorting::pair_views(fields@) + Seq::empty() =~= crate::sorting::pair_views(
            fields@,
        ));
    }
    let app = match last_value_of(&fields, "app") {
        Some(a) => a,
        None => {
            return ExecOutcome::Error(line_error(index, "missing app="));
        },
    };
    let flag = match last_value_of(&fields, "data_dir_flag") {
        Some(f) => f,
        None => {
            return ExecOutcome::Error(line_error(index, "missing data_dir_flag="));
        },
    };
    let extra = match last_value_of(&fields, "extra_flag") {
        Some(e) => Some(string_of(&e)),
        None => None,
    };
    ExecOutcome::Policy(
        InstancePolicy { app: string_of(&app), data_dir_flag: string_of(&flag), extra_flag: extra },
    )
}

/// Parses a policy file: blank lines and `#` comments are skipped, every
/// other line is one policy. The first malformed line is the error.
pub fn parse_policies(text: &str) -> (r: Result<Vec<InstancePolicy>, String>)
    ensures
        match r {
            Ok(ps) => parse_policies_spec(text@) == Ok::<Seq<PolicyModel>, Seq<char>>(
                policy_views(ps@),
            ),
            Err(m) => parse_policies_spec(text@) == Err::<Seq<PolicyModel>, Seq<char>>(m@),
        },
{
    let cs = chars_of(text);
    let lines = lines_of(&cs);
    let ghost lv = piece_views(lines@);
    let mut policies: Vec<InstancePolicy> = Vec::new();
    let mut i: usize = 0;
    assert(policy_views(policies@) + Seq::empty() =~= Seq::<PolicyModel>::empty());
    while i < lines.len()
        invariant
            i <= lines.len(),
            lv == piece_views(lines@),
            lv == text_lines(text@),
            policies_from(lv, 0) == match policies_from(lv, i as int) {
                Ok(ps) => Ok(policy_views(policies@) + ps),
                Err(m) => Err(m),
            },
        decreases lines.len() - i,
    {
        assert(lv[i as int] == lines@[i as int]@);
        match parse_line(&lines[i], i) {
            ExecOutcome::Skip => {},
            ExecOutcome::Error(m) => {
                return Err(m);
            },
            ExecOutcome::Policy(p) => {
                let ghost before = policy_views(policies@);
                policies.push(p);
                proof {
                    assert(policy_views(policies@) =~= before.push(p@));
                    if policies_from(lv, i + 1) is Ok {
                        let ps = policies_from(lv, i + 1)->Ok_0;
                        assert(before + (seq![p@] + ps) =~= before.push(p@) + ps);
                    }
                }
            },
        }
        i = i + 1;
    }
    assert(policy_views(policies@) + Seq::empty() =~= policy_views(policies@));
    Ok(policies)
}

impl InstancePolicy {
    /// The args for one pod launch, given the pod's absolute profile dir:
    /// the data-dir flag, then the extra flag, each followed by the dir.
    pub fn launch_args(&self, pod_profile_dir: &str) -> (r: Vec<String>)
        ensures
            texts_of(r@) == match self.extra_flag {
                Some(e) => seq![self.data_dir_flag@ + pod_profile_dir@, e@ + pod_profile_dir@],
                None => seq![self.data_dir_flag@ + pod_profile_dir@],
            },
    {
        let mut args: Vec<String> = Vec::new();
        args.push(concat2(self.data_dir_flag.as_str(), pod_profile_dir));
        if let Some(extra) = &self.extra_flag {
            args.push(concat2(extra.as_str(), pod_profile_dir));
        }
        assert(texts_of(args@) =~= match self.extra_flag {
            Some(e) => seq![self.data_dir_flag@ + pod_profile_dir@, e@ + pod_profile_dir@],
            None => seq![self.data_dir_flag@ + pod_profile_dir@],
        });
        args
    }
}

fn push_str(out: &mut String, s: &str)
    ensures
        final(out)@ == old(out)@ + s@,
{
    let joined = concat2(out.as_str(), s);
    *out = joined;
}

/// Renders policies as a policy file: the header, then one line each.
pub fn format_policies(policies: &[InstancePolicy]) -> (r: String)
    ensures
        r@ == format_policies_spec(policy_views(policies@)),
{
    let mut out = to_owned_string(POLICY_HEADER);
    push_str(&mut out, "\n");
    proof {
        reveal_strlit("\n");
    }
    let ghost pv = policy_views(policies@);
    let mut i: usize = 0;
    assert(pv.take(0) =~= Seq::<PolicyModel>::empty());
    while i < policies.len()
        invariant
            i <= policies@.len(),
            pv == policy_views(policies@),
            "\n"@ == seq!['\n'],
            out@ == POLICY_HEADER@ + seq!['\n'] + policy_lines(pv.take(i as int)),
        decreases policies.len() - i,
    {
        let p = &policies[i];
        let ghost before = out@;
        push_str(&mut out, "app=");
        push_str(&mut out, p.app.as_str());
        push_str(&mut out, "|data_dir_flag=");
        push_str(&mut out, p.data_dir_flag.as_str());
        if let Some(extra) = &p.extra_flag {
            push_str(&mut out, "|extra_flag=");
            push_str(&mut out, extra.as_str());
        }
        push_str(&mut out, "\n");
        proof {
            reveal_strlit("app=");
            reveal_strlit("|data_dir_flag=");
            reveal_strlit("|extra_flag=");
            reveal_strlit("app");
            reveal_strlit("data_dir_flag");
            reveal_strlit("extra_flag");
            assert(pv.take(i + 1).drop_last() =~= pv.take(i as int));
            assert(pv.take(i + 1).last() == p@);
            assert(out@ =~= before + policy_line(p@));
        }
        i = i + 1;
    }
    assert(pv.take(policies@.len() as int) =~= pv);
    out
}

/// The shipped set is empty: product knowledge enters only through files
/// the person or an integrator declares.
pub fn default_policies() -> (r: Vec<InstancePolicy>)
    ensures
        r@.len() == 0,
{
    Vec::new()
}

/// The position of the first policy for `app`, searching from `i`.
pub open spec fn find_app_from(ps: Seq<PolicyModel>, app: Seq<char>, i: int) -> Option<int>
    decreases ps.len() - i,
{
    if i < 0 || i >= ps.len() {
        None
    } else if ps[i].app == app {
        Some(i)
    } else {
        find_app_from(ps, app, i + 1)
    }
}

/// Policy lookup by witnessed app name: the first exact match.
pub fn policy_for<'a>(policies: &'a [InstancePolicy], app_name: &str) -> (r: Option<
    &'a InstancePolicy,
>)
    ensures
        match find_app_from(policy_views(policies@), app_name@, 0) {
            Some(i) => r == Some(&policies@[i]),
            None => r is None,
        },
{
    let ghost pv = policy_views(policies@);
    let mut i: usize = 0;
    while i < policies.len()
        invariant
            i <= policies@.len(),
            pv == policy_views(policies@),
            find_app_from(pv, app_name@, 0) == find_app_from(pv, app_name@, i as int),
        decreases policies.len() - i,
    {
        assert(pv[i as int] == policies@[i as int]@);
        if str_eq(policies[i].app.as_str(), app_name) {
            return Some(&policies[i]);
        }
        i = i + 1;
    }
    None
}


// ── The file format round trip ─────────────────────────────────────────────

/// A field value the file format carries unchanged: non-empty, trimmed,
/// and free of the `|` and newline separators.
pub open spec fn clean_value(v: Seq<char>) -> bool {
    v.len() > 0 && trim(v) == v && !has_char(v, '|') && !has_char(v, '\n')
}

/// A policy whose every field is a clean value.
pub open spec fn clean_policy(p: PolicyModel) -> bool {
    clean_value(p.app) && clean_value(p.data_dir_flag) && (p.extra_flag matches Some(e)
        ==> clean_value(e))
}

proof fn lemma_has_char_concat(a: Seq<char>, b: Seq<char>, c: char)
    ensures
        has_char(a + b, c) == (has_char(a, c) || has_char(b, c)),
{
    let s = a + b;
    if has_char(s, c) {
        let i = choose|i: int| 0 <= i < s.len() && s[i] == c;
        if i < a.len() {
            assert(a[i] == c);
        } else {
            assert(b[i - a.len()] == c);
        }
    }
    if has_char(a, c) {
        let i = choose|i: int| 0 <= i < a.len() && a[i] == c;
        assert(s[i] == c);
    }
    if has_char(b, c) {
        let i = choose|i: int| 0 <= i < b.len() && b[i] == c;
        assert(s[a.len() + i] == c);
    }
}

proof fn lemma_policy_lines_front(ps: Seq<PolicyModel>)
    requires
        ps.len() > 0,
    ensures
        policy_lines(ps) == policy_line(ps[0]) + policy_lines(ps.drop_first()),
    decreases ps.len(),
{
    if ps.len() == 1 {
        assert(ps.drop_last() =~= Seq::<PolicyModel>::empty());
        assert(ps.drop_first() =~= Seq::<PolicyModel>::empty());
        assert(policy_lines(ps) =~= policy_line(ps[0]) + policy_lines(ps.drop_first()));
    } else {
        lemma_policy_lines_front(ps.drop_last());
        assert(ps.drop_last().drop_first() =~= ps.drop_first().drop_last());
        assert(ps.drop_first().last() == ps.last());
        assert(ps.drop_last()[0] == ps[0]);
        assert(policy_lines(ps) =~= policy_line(ps[0]) + policy_lines(ps.drop_first()));
    }
}

proof fn lemma_literals()
    ensures
        "app"@ == seq!['a', 'p', 'p'],
        "data_dir_flag"@ == seq!['d', 'a', 't', 'a', '_', 'd', 'i', 'r', '_', 'f', 'l', 'a', 'g'],
        "extra_flag"@ == seq!['e', 'x', 't', 'r', 'a', '_', 'f', 'l', 'a', 'g'],
        POLICY_HEADER@.len() == 26,
        POLICY_HEADER@[0] == '#',
        POLICY_HEADER@[25] == '1',
        forall|i: int| 0 <= i < 26 ==> POLICY_HEADER@[i] != '\n',
{
    reveal_strlit("app");
    reveal_strlit("data_dir_flag");
    reveal_strlit("extra_flag");
    reveal_strlit("# evo-instance-policies-v1");
}

proof fn lemma_body_shape(p: PolicyModel)
    requires
        clean_policy(p),
    ensures
        !has_char(policy_body(p), '\n'),
        policy_body(p).len() > 0,
        policy_body(p)[0] == 'a',
        !crate::text::is_ws(policy_body(p).last()),
        trim(policy_body(p)) == policy_body(p),
{
    lemma_literals();
    let app = "app"@ + seq!['='] + p.app;
    let dd = "data_dir_flag"@ + seq!['='] + p.data_dir_flag;
    lemma_has_char_concat("app"@, seq!['='], '\n');
    lemma_has_char_concat("app"@ + seq!['='], p.app, '\n');
    lemma_has_char_concat(app, seq!['|'], '\n');
    lemma_has_char_concat(app + seq!['|'], "data_dir_flag"@, '\n');
    lemma_has_char_concat(app + seq!['|'] + "data_dir_flag"@, seq!['='], '\n');
    lemma_has_char_concat(app + seq!['|'] + "data_dir_flag"@ + seq!['='], p.data_dir_flag, '\n');
    let head = app + seq!['|'] + "data_dir_flag"@ + seq!['='] + p.data_dir_flag;
    crate::text::lemma_trimmed_ends(p.data_dir_flag);
    match p.extra_flag {
        Some(e) => {
            crate::text::lemma_trimmed_ends(e);
            lemma_has_char_concat(seq!['|'], "extra_flag"@, '\n');
            lemma_has_char_concat(seq!['|'] + "extra_flag"@, seq!['='], '\n');
            lemma_has_char_concat(seq!['|'] + "extra_flag"@ + seq!['='], e, '\n');
            lemma_has_char_concat(head, seq!['|'] + "extra_flag"@ + seq!['='] + e, '\n');
            assert(policy_body(p) == head + (seq!['|'] + "extra_flag"@ + seq!['='] + e));
            assert(policy_body(p).last() == e.last());
        },
        None => {
            assert(policy_body(p) =~= head);
            assert(policy_body(p).last() == p.data_dir_flag.last());
        },
    }
    assert(policy_body(p)[0] == 'a');
    crate::text::lemma_trim_visible_ends(policy_body(p));
}

/// The bodies of the policy lines, in order.
pub open spec fn policy_bodies(ps: Seq<PolicyModel>) -> Seq<Seq<char>> {
    ps.map_values(|p: PolicyModel| policy_body(p))
}

proof fn lemma_split_policy_lines(ps: Seq<PolicyModel>)
    requires
        forall|i: int| 0 <= i < ps.len() ==> clean_policy(#[trigger] ps[i]),
    ensures
        split_all(policy_lines(ps), '\n') == policy_bodies(ps) + seq![Seq::<char>::empty()],
    decreases ps.len(),
{
    if ps.len() == 0 {
        crate::chars::lemma_split_single(Seq::<char>::empty(), '\n');
        assert(policy_bodies(ps) =~= Seq::<Seq<char>>::empty());
        assert(policy_bodies(ps) + seq![Seq::<char>::empty()] =~= seq![Seq::<char>::empty()]);
    } else {
        lemma_policy_lines_front(ps);
        lemma_body_shape(ps[0]);
        lemma_split_policy_lines(ps.drop_first());
        crate::chars::lemma_split_concat(policy_body(ps[0]), policy_lines(ps.drop_first()), '\n');
        assert(policy_line(ps[0]) + policy_lines(ps.drop_first()) =~= policy_body(ps[0]) + seq![
            '\n',
        ] + policy_lines(ps.drop_first()));
        assert(policy_bodies(ps) =~= seq![policy_body(ps[0])] + policy_bodies(ps.drop_first()));
        assert(policy_bodies(ps) + seq![Seq::<char>::empty()] =~= seq![policy_body(ps[0])] + (
        policy_bodies(ps.drop_first()) + seq![Seq::<char>::empty()]));
    }
}

proof fn lemma_format_lines(ps: Seq<PolicyModel>)
    requires
        forall|i: int| 0 <= i < ps.len() ==> clean_policy(#[trigger] ps[i]),
    ensures
        text_lines(format_policies_spec(ps)) == seq![POLICY_HEADER@] + policy_bodies(ps),
{
    lemma_literals();
    assert(!has_char(POLICY_HEADER@, '\n'));
    lemma_split_policy_lines(ps);
    crate::chars::lemma_split_concat(POLICY_HEADER@, policy_lines(ps), '\n');
    let pieces = split_all(format_policies_spec(ps), '\n');
    let full = seq![POLICY_HEADER@] + policy_bodies(ps);
    assert(pieces =~= full + seq![Seq::<char>::empty()]);
    assert(pieces.drop_last() =~= full);
    assert forall|i: int| 0 <= i < full.len() implies crate::chars::strip_cr(#[trigger] full[i])
        == full[i] by {
        if i == 0 {
            assert(full[i].last() == '1');
        } else {
            assert(full[i] == policy_body(ps[i - 1]));
            lemma_body_shape(ps[i - 1]);
        }
    }
    assert(full.map_values(|l: Seq<char>| crate::chars::strip_cr(l)) =~= full);
}

proof fn lemma_pair_fields(k: Seq<char>, v: Seq<char>)
    requires
        k.len() > 0,
        !crate::text::is_ws(k[0]),
        !crate::text::is_ws(k.last()),
        !has_char(k, '='),
        !has_char(k, '|'),
        clean_value(v),
    ensures
        split_once(k + seq!['='] + v, '=') == Some((k, v)),
        !has_char(k + seq!['='] + v, '|'),
        trim(k) == k,
        trim(v) == v,
{
    lemma_has_char_concat(k, seq!['='], '|');
    lemma_has_char_concat(k + seq!['='], v, '|');
    crate::chars::lemma_split_once_concat(k, v, '=');
    crate::text::lemma_trim_visible_ends(k);
}

proof fn lemma_fields_two(p: PolicyModel)
    requires
        clean_policy(p),
        p.extra_flag is None,
    ensures
        fields_of(split_all(policy_body(p), '|')) == Ok::<Seq<(Seq<char>, Seq<char>)>, Seq<char>>(
            seq![("app"@, p.app), ("data_dir_flag"@, p.data_dir_flag)],
        ),
{
    lemma_literals();
    let a = "app"@ + seq!['='] + p.app;
    let d = "data_dir_flag"@ + seq!['='] + p.data_dir_flag;
    lemma_pair_fields("app"@, p.app);
    lemma_pair_fields("data_dir_flag"@, p.data_dir_flag);
    crate::chars::lemma_split_single(d, '|');
    crate::chars::lemma_split_concat(a, d, '|');
    assert(policy_body(p) =~= a + seq!['|'] + d);
    let pairs = seq![a, d];
    assert(split_all(policy_body(p), '|') =~= pairs);
    assert(pairs.drop_first() =~= seq![d]);
    assert(seq![d].drop_first() =~= Seq::<Seq<char>>::empty());
    let f2 = seq![("data_dir_flag"@, p.data_dir_flag)];
    assert(fields_of(Seq::<Seq<char>>::empty()) == Ok::<Seq<(Seq<char>, Seq<char>)>, Seq<char>>(
        Seq::empty(),
    ));
    assert(fields_of(seq![d]) == Ok::<Seq<(Seq<char>, Seq<char>)>, Seq<char>>(f2)) by {
        assert(f2 + Seq::empty() =~= f2);
    }
    assert(seq![("app"@, p.app)] + f2 =~= seq![("app"@, p.app), ("data_dir_flag"@, p.data_dir_flag)]);
}

proof fn lemma_fields_three(p: PolicyModel, e: Seq<char>)
    requires
        clean_policy(p),
        p.extra_flag == Some(e),
    ensures
        fields_of(split_all(policy_body(p), '|')) == Ok::<Seq<(Seq<char>, Seq<char>)>, Seq<char>>(
            seq![("app"@, p.app), ("data_dir_flag"@, p.data_dir_flag), ("extra_flag"@, e)],
        ),
{
    lemma_literals();
    let a = "app"@ + seq!['='] + p.app;
    let d = "data_dir_flag"@ + seq!['='] + p.data_dir_flag;
    let x = "extra_flag"@ + seq!['='] + e;
    lemma_pair_fields("app"@, p.app);
    lemma_pair_fields("data_dir_flag"@, p.data_dir_flag);
    lemma_pair_fields("extra_flag"@, e);
    crate::chars::lemma_split_single(x, '|');
    crate::chars::lemma_split_concat(d, x, '|');
    crate::chars::lemma_split_concat(a, d + seq!['|'] + x, '|');
    assert(policy_body(p) =~= a + seq!['|'] + (d + seq!['|'] + x));
    let pairs = seq![a, d, x];
    assert(split_all(policy_body(p), '|') =~= pairs);
    assert(pairs.drop_first() =~= seq![d, x]);
    assert(seq![d, x].drop_first() =~= seq![x]);
    assert(seq![x].drop_first() =~= Seq::<Seq<char>>::empty());
    let f3 = seq![("extra_flag"@, e)];
    assert(fields_of(Seq::<Seq<char>>::empty()) == Ok::<Seq<(Seq<char>, Seq<char>)>, Seq<char>>(
        Seq::empty(),
    ));
    assert(fields_of(seq![x]) == Ok::<Seq<(Seq<char>, Seq<char>)>, Seq<char>>(f3)) by {
        assert(f3 + Seq::empty() =~= f3);
    }
    let f23 = seq![("data_dir_flag"@, p.data_dir_flag), ("extra_flag"@, e)];
    assert(seq![("data_dir_flag"@, p.data_dir_flag)] + f3 =~= f23);
    assert(fields_of(seq![d, x]) == Ok::<Seq<(Seq<char>, Seq<char>)>, Seq<char>>(f23));
    assert(seq![("app"@, p.app)] + f23 =~= seq![
        ("app"@, p.app),
        ("data_dir_flag"@, p.data_dir_flag),
        ("extra_flag"@, e),
    ]);
}

proof fn lemma_body_outcome(p: PolicyModel, index: int)
    requires
        clean_policy(p),
    ensures
        line_outcome(trim(policy_body(p)), index) == LineOutcome::Policy(p),
{
    lemma_literals();
    lemma_body_shape(p);
    match p.extra_flag {
        Some(e) => {
            lemma_fields_three(p, e);
            let fields = seq![("app"@, p.app), ("data_dir_flag"@, p.data_dir_flag), ("extra_flag"@, e)];
            let f2 = fields.drop_last();
            let f1 = f2.drop_last();
            assert(f2 =~= seq![("app"@, p.app), ("data_dir_flag"@, p.data_dir_flag)]);
            assert(f1 =~= seq![("app"@, p.app)]);
            assert(last_value(f1, "app"@) == Some(p.app));
            assert(last_value(f2, "app"@) == Some(p.app));
            assert(last_value(fields, "app"@) == Some(p.app));
            assert(last_value(f2, "data_dir_flag"@) == Some(p.data_dir_flag));
            assert(last_value(fields, "data_dir_flag"@) == Some(p.data_dir_flag));
            assert(last_value(fields, "extra_flag"@) == Some(e));
        },
        None => {
            lemma_fields_two(p);
            let fields = seq![("app"@, p.app), ("data_dir_flag"@, p.data_dir_flag)];
            let f1 = fields.drop_last();
            assert(f1 =~= seq![("app"@, p.app)]);
            assert(f1.drop_last() =~= Seq::<(Seq<char>, Seq<char>)>::empty());
            assert(last_value(f1, "app"@) == Some(p.app));
            assert(last_value(fields, "app"@) == Some(p.app));
            assert(last_value(fields, "data_dir_flag"@) == Some(p.data_dir_flag));
            assert(last_value(Seq::<(Seq<char>, Seq<char>)>::empty(), "extra_flag"@) is None);
            assert("app"@ != "extra_flag"@);
            assert(last_value(f1, "extra_flag"@) is None);
            assert(last_value(fields, "extra_flag"@) is None);
        },
    }
}

proof fn lemma_policies_tail(ps: Seq<PolicyModel>, k: int)
    requires
        forall|i: int| 0 <= i < ps.len() ==> clean_policy(#[trigger] ps[i]),
        1 <= k <= ps.len() + 1,
    ensures
        policies_from(seq![POLICY_HEADER@] + policy_bodies(ps), k) == Ok::<
            Seq<PolicyModel>,
            Seq<char>,
        >(ps.skip(k - 1)),
    decreases ps.len() + 1 - k,
{
    let lines = seq![POLICY_HEADER@] + policy_bodies(ps);
    if k == ps.len() + 1 {
        assert(ps.skip(k - 1) =~= Seq::<PolicyModel>::empty());
    } else {
        lemma_policies_tail(ps, k + 1);
        assert(lines[k] == policy_body(ps[k - 1]));
        lemma_body_outcome(ps[k - 1], k);
        assert(seq![ps[k - 1]] + ps.skip(k) =~= ps.skip(k - 1));
    }
}

/// Parsing what formatting wrote gives the policies back, for every list
/// of policies whose fields are non-empty, trimmed, and free of the `|`
/// and newline separators; the text starts with the header line and has
/// one more line than there are policies.
pub proof fn lemma_policies_round_trip(ps: Seq<PolicyModel>)
    requires
        forall|i: int| 0 <= i < ps.len() ==> clean_policy(#[trigger] ps[i]),
    ensures
        parse_policies_spec(format_policies_spec(ps)) == Ok::<Seq<PolicyModel>, Seq<char>>(ps),
        "# evo-instance-policies-v1\n"@.is_prefix_of(format_policies_spec(ps)),
        text_lines(format_policies_spec(ps)).len() == ps.len() + 1,
{
    reveal_strlit("# evo-instance-policies-v1\n");
    reveal_strlit("# evo-instance-policies-v1");
    assert(POLICY_HEADER@ + seq!['\n'] =~= "# evo-instance-policies-v1\n"@);
    assert(format_policies_spec(ps).subrange(0, 27) =~= "# evo-instance-policies-v1\n"@);
    lemma_format_lines(ps);
    lemma_policies_tail(ps, 1);
    lemma_literals();
    crate::text::lemma_trim_visible_ends(POLICY_HEADER@);
    assert(ps.skip(0) =~= ps);
}

} // verus!
