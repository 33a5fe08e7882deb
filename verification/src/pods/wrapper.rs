//! Wrapper bundles: per-pod app identities, as text.
//!
//! A pod gets a child `.app` with its own bundle identifier whose
//! executable is a stub script that execs the canonical binary with the
//! pod's isolation arguments. Only the texts are made here: the bundle
//! identifier, the launcher script, the Info.plist and the bundle path.

use vstd::prelude::*;
use crate::chars::slice;
use crate::text::{chars_of, concat2, concat3, string_of, to_owned_string};

verus! {

/// The identity and launch of one wrapper bundle.
#[derive(Debug, Clone, PartialEq, Eq)]
pub struct WrapperSpec {
    /// The display label, e.g. "Evo Pods — invoice-sync".
    pub label: String,
    /// The inverted-DNS identifier.
    pub bundle_id: String,
    /// The canonical binary inside the wrapped app.
    pub target_binary: String,
    /// The isolation arguments.
    pub target_args: Vec<String>,
}

/// The text `str::to_lowercase` gives.
pub uninterp spec fn lowercased(s: Seq<char>) -> Seq<char>;

/// A character below 128.
pub open spec fn is_ascii_char(c: char) -> bool {
    c <= '\x7f'
}

/// The ASCII lowercase of a character: `A`..`Z` become `a`..`z`, every
/// other character stays.
pub open spec fn ascii_lower(c: char) -> char {
    if 'A' <= c <= 'Z' {
        ((c as u32) + 32) as char
    } else {
        c
    }
}

/// `str::to_lowercase`: the Unicode lowercase of a text. It holds no
/// uppercase ASCII letter (`A`..`Z` always map to `a`..`z`, and no
/// lowercase mapping yields one); on ASCII text it is the ASCII lowercase,
/// character by character; beyond that the case mapping is left unnamed
/// beyond being a function of the text.
#[verifier::external_body]
pub(crate) fn lowercase(s: &str) -> (r: String)
    ensures
        r@ == lowercased(s@),
        forall|i: int| 0 <= i < r@.len() ==> !('A' <= #[trigger] r@[i] <= 'Z'),
        (forall|i: int| 0 <= i < s@.len() ==> is_ascii_char(#[trigger] s@[i])) ==> r@ == s@.map_values(
            |c: char| ascii_lower(c),
        ),
{
    s.to_lowercase()
}

/// An ASCII letter or digit.
pub open spec fn ascii_alnum(c: char) -> bool {
    ('a' <= c <= 'z') || ('A' <= c <= 'Z') || ('0' <= c <= '9')
}

/// Every character that is not an ASCII letter or digit becomes `-`.
pub open spec fn dns_chars(s: Seq<char>) -> Seq<char> {
    s.map_values(|c: char| if ascii_alnum(c) { c } else { '-' })
}

/// Every run of `-` collapsed to one.
pub open spec fn collapse_dashes(s: Seq<char>) -> Seq<char>
    decreases s.len(),
{
    if s.len() == 0 {
        s
    } else {
        let c = collapse_dashes(s.drop_last());
        if s.last() == '-' && c.len() > 0 && c.last() == '-' {
            c
        } else {
            c.push(s.last())
        }
    }
}

/// Leading `-` removed.
pub open spec fn trim_dashes_start(s: Seq<char>) -> Seq<char>
    decreases s.len(),
{
    if s.len() > 0 && s[0] == '-' {
        trim_dashes_start(s.drop_first())
    } else {
        s
    }
}

/// Trailing `-` removed.
pub open spec fn trim_dashes_end(s: Seq<char>) -> Seq<char>
    decreases s.len(),
{
    if s.len() > 0 && s.last() == '-' {
        trim_dashes_end(s.drop_last())
    } else {
        s
    }
}

/// The slug of a pod name: lowercased, reduced to `[a-z0-9-]` with single
/// dashes and none at the ends; `work` when nothing is left.
pub open spec fn bundle_slug(pod_name: Seq<char>) -> Seq<char> {
    let s = trim_dashes_end(trim_dashes_start(collapse_dashes(dns_chars(lowercased(pod_name)))));
    if s.len() == 0 {
        "work"@
    } else {
        s
    }
}

/// Every character is an ASCII letter or digit, or `-`.
pub open spec fn dns_safe(s: Seq<char>) -> bool {
    forall|i: int| 0 <= i < s.len() ==> ascii_alnum(#[trigger] s[i]) || s[i] == '-'
}

/// No two dashes stand next to each other.
pub open spec fn no_double_dash(s: Seq<char>) -> bool {
    forall|i: int| 0 <= i < s.len() - 1 ==> !(#[trigger] s[i] == '-' && s[i + 1] == '-')
}

proof fn lemma_collapse(s: Seq<char>)
    requires
        dns_safe(s),
    ensures
        dns_safe(collapse_dashes(s)),
        no_double_dash(collapse_dashes(s)),
        s.len() > 0 ==> collapse_dashes(s).len() > 0 && collapse_dashes(s).last() == s.last(),
    decreases s.len(),
{
    if s.len() > 0 {
        let p = s.drop_last();
        assert forall|i: int| 0 <= i < p.len() implies ascii_alnum(#[trigger] p[i]) || p[i] == '-' by {
            assert(p[i] == s[i]);
        }
        lemma_collapse(p);
        let c = collapse_dashes(p);
        let r = collapse_dashes(s);
        if !(s.last() == '-' && c.len() > 0 && c.last() == '-') {
            assert(r == c.push(s.last()));
            assert forall|i: int| 0 <= i < r.len() implies ascii_alnum(#[trigger] r[i]) || r[i] == '-' by {
                if i < c.len() {
                    assert(r[i] == c[i]);
                }
            }
            assert forall|i: int| 0 <= i < r.len() - 1 implies !(#[trigger] r[i] == '-' && r[i + 1] == '-') by {
                if i < c.len() - 1 {
                    assert(r[i] == c[i] && r[i + 1] == c[i + 1]);
                } else {
                    assert(r[i] == c.last());
                }
            }
        }
    }
}

proof fn lemma_trim_start(s: Seq<char>) -> (k: int)
    ensures
        0 <= k <= s.len(),
        trim_dashes_start(s) == s.skip(k),
        trim_dashes_start(s).len() > 0 ==> trim_dashes_start(s)[0] != '-',
    decreases s.len(),
{
    if s.len() > 0 && s[0] == '-' {
        let k = lemma_trim_start(s.drop_first());
        assert(s.drop_first().skip(k) =~= s.skip(k + 1));
        k + 1
    } else {
        assert(s.skip(0) =~= s);
        0
    }
}

proof fn lemma_trim_end(s: Seq<char>) -> (k: int)
    ensures
        0 <= k <= s.len(),
        trim_dashes_end(s) == s.take(k),
        trim_dashes_end(s).len() > 0 ==> trim_dashes_end(s).last() != '-',
    decreases s.len(),
{
    if s.len() > 0 && s.last() == '-' {
        let k = lemma_trim_end(s.drop_last());
        assert(s.drop_last().take(k) =~= s.take(k));
        k
    } else {
        assert(s.take(s.len() as int) =~= s);
        s.len() as int
    }
}

/// A pod's bundle slug is DNS-safe: never empty, only ASCII letters,
/// digits and `-`, no `--`, and no dash at either end.
pub proof fn lemma_slug_dns_safe(pod_name: Seq<char>)
    ensures
        bundle_slug(pod_name).len() > 0,
        dns_safe(bundle_slug(pod_name)),
        no_double_dash(bundle_slug(pod_name)),
        bundle_slug(pod_name)[0] != '-',
        bundle_slug(pod_name).last() != '-',
{
    let d = dns_chars(lowercased(pod_name));
    assert forall|i: int| 0 <= i < d.len() implies ascii_alnum(#[trigger] d[i]) || d[i] == '-' by {}
    lemma_collapse(d);
    let c = collapse_dashes(d);
    let k1 = lemma_trim_start(c);
    let t = trim_dashes_start(c);
    let k2 = lemma_trim_end(t);
    let s = trim_dashes_end(t);
    assert forall|i: int| 0 <= i < s.len() implies ascii_alnum(#[trigger] s[i]) || s[i] == '-' by {
        assert(s[i] == t[i] && t[i] == c[i + k1]);
    }
    assert forall|i: int| 0 <= i < s.len() - 1 implies !(#[trigger] s[i] == '-' && s[i + 1] == '-') by {
        assert(s[i] == c[i + k1] && s[i + 1] == c[i + 1 + k1]);
    }
    if s.len() > 0 {
        assert(s[0] == t[0]);
    } else {
        reveal_strlit("work");
        assert(bundle_slug(pod_name) == "work"@);
        assert("work"@ =~= seq!['w', 'o', 'r', 'k']);
    }
}

fn dns_slug(v: &Vec<char>) -> (r: Vec<char>)
    ensures
        r@ == collapse_dashes(dns_chars(v@)),
{
    let ghost d = dns_chars(v@);
    let mut out: Vec<char> = Vec::new();
    let mut i: usize = 0;
    assert(d.take(0) =~= Seq::<char>::empty());
    while i < v.len()
        invariant
            i <= v.len(),
            d == dns_chars(v@),
            out@ == collapse_dashes(d.take(i as int)),
        decreases v.len() - i,
    {
        let c = v[i];
        let m = if ('a' <= c && c <= 'z') || ('A' <= c && c <= 'Z') || ('0' <= c && c <= '9') {
            c
        } else {
            '-'
        };
        assert(d.take(i + 1).drop_last() =~= d.take(i as int));
        assert(d.take(i + 1).last() == m);
        if !(m == '-' && out.len() > 0 && out[out.len() - 1] == '-') {
            out.push(m);
        }
        i = i + 1;
    }
    assert(d.take(v.len() as int) =~= d);
    out
}

fn trim_dashes(v: &Vec<char>) -> (r: Vec<char>)
    ensures
        r@ == trim_dashes_end(trim_dashes_start(v@)),
{
    let mut lo: usize = 0;
    assert(v@.skip(0) =~= v@);
    while lo < v.len() && v[lo] == '-'
        invariant
            lo <= v.len(),
            trim_dashes_start(v@) == trim_dashes_start(v@.skip(lo as int)),
        decreases v.len() - lo,
    {
        assert(v@.skip(lo as int).drop_first() =~= v@.skip(lo + 1));
        lo = lo + 1;
    }
    let t = slice(v, lo, v.len());
    assert(t@ =~= v@.skip(lo as int));
    let mut hi = t.len();
    assert(t@.take(t.len() as int) =~= t@);
    while hi > 0 && t[hi - 1] == '-'
        invariant
            hi <= t.len(),
            trim_dashes_end(t@) == trim_dashes_end(t@.take(hi as int)),
        decreases hi,
    {
        assert(t@.take(hi as int).drop_last() =~= t@.take(hi - 1));
        hi = hi - 1;
    }
    let r = slice(&t, 0, hi);
    assert(r@ =~= t@.take(hi as int));
    r
}

/// A lowercase ASCII letter, a digit or `-`.
pub open spec fn slug_char(c: char) -> bool {
    ('a' <= c <= 'z') || ('0' <= c <= '9') || c == '-'
}

proof fn lemma_collapse_from(s: Seq<char>)
    ensures
        forall|i: int| 0 <= i < collapse_dashes(s).len() ==> s.contains(#[trigger] collapse_dashes(s)[i]),
    decreases s.len(),
{
    if s.len() > 0 {
        let p = s.drop_last();
        lemma_collapse_from(p);
        let c = collapse_dashes(p);
        let r = collapse_dashes(s);
        assert forall|i: int| 0 <= i < r.len() implies s.contains(#[trigger] r[i]) by {
            if i < c.len() {
                assert(r[i] == c[i]);
                let j = choose|j: int| 0 <= j < p.len() && p[j] == c[i];
                assert(s[j] == p[j]);
            } else {
                assert(r[i] == s[s.len() - 1]);
            }
        }
    }
}

/// When a pod name's lowercase holds no uppercase ASCII letter, every
/// slug character is a lowercase letter, a digit or `-`.
proof fn lemma_slug_lower(pod_name: Seq<char>)
    requires
        forall|i: int| 0 <= i < lowercased(pod_name).len() ==> !('A' <= #[trigger] lowercased(pod_name)[i] <= 'Z'),
    ensures
        forall|i: int| 0 <= i < bundle_slug(pod_name).len() ==> slug_char(#[trigger] bundle_slug(pod_name)[i]),
{
    reveal_strlit("work");
    let l = lowercased(pod_name);
    let d = dns_chars(l);
    assert forall|i: int| 0 <= i < d.len() implies slug_char(#[trigger] d[i]) by {
        assert(!('A' <= l[i] <= 'Z'));
    }
    lemma_collapse_from(d);
    let c = collapse_dashes(d);
    let k1 = lemma_trim_start(c);
    let t = trim_dashes_start(c);
    let k2 = lemma_trim_end(t);
    let s = trim_dashes_end(t);
    assert forall|i: int| 0 <= i < s.len() implies slug_char(#[trigger] s[i]) by {
        assert(s[i] == t[i] && t[i] == c[i + k1]);
        let j = choose|j: int| 0 <= j < d.len() && d[j] == c[i + k1];
        assert(slug_char(d[j]));
    }
}

/// The bundle identifier `{prefix}.{slug}`: the pod name lowercased,
/// stripped to `[a-z0-9-]`, never empty, always DNS-safe.
pub fn normalize_bundle_id(host_bundle_prefix: &str, pod_name: &str) -> (r: String)
    ensures
        r@ == host_bundle_prefix@ + seq!['.'] + bundle_slug(pod_name@),
        forall|i: int| 0 <= i < bundle_slug(pod_name@).len() ==> slug_char(#[trigger] bundle_slug(pod_name@)[i]),
{
    let lower = lowercase(pod_name);
    proof {
        lemma_slug_lower(pod_name@);
    }
    let cs = chars_of(lower.as_str());
    let slug = trim_dashes(&dns_slug(&cs));
    let s = if slug.len() == 0 {
        to_owned_string("work")
    } else {
        string_of(&slug)
    };
    proof {
        reveal_strlit(".");
    }
    concat3(host_bundle_prefix, ".", s.as_str())
}

/// The characters of each string.
pub open spec fn arg_texts(v: Seq<String>) -> Seq<Seq<char>> {
    v.map_values(|s: String| s@)
}

/// ` "a1" "a2" …`: each argument quoted, space-separated.
pub open spec fn quoted_args(args: Seq<Seq<char>>) -> Seq<char>
    decreases args.len(),
{
    if args.len() == 0 {
        Seq::empty()
    } else {
        quoted_args(args.drop_last()) + seq![' ', '"'] + args.last() + seq!['"']
    }
}

/// The launcher stub: a shell script that execs the target binary with
/// the isolation arguments and whatever it was given.
pub open spec fn launcher_text(binary: Seq<char>, args: Seq<Seq<char>>) -> Seq<char> {
    "#!/bin/sh\n# Evo pod launcher — execs the canonical app with this pod's isolation.\nexec"@
        + seq![' ', '"'] + binary + seq!['"'] + quoted_args(args) + " \"$@\"\n"@
}

fn push_text(out: &mut String, s: &str)
    ensures
        final(out)@ == old(out)@ + s@,
{
    let joined = concat2(out.as_str(), s);
    *out = joined;
}

/// A minimal, explicit executable shell stub.
pub fn launcher_script(spec: &WrapperSpec) -> (r: String)
    ensures
        r@ == launcher_text(spec.target_binary@, arg_texts(spec.target_args@)),
{
    let mut s = to_owned_string(
        "#!/bin/sh\n# Evo pod launcher — execs the canonical app with this pod's isolation.\nexec",
    );
    proof {
        reveal_strlit(" \"");
        reveal_strlit("\"");
    }
    push_text(&mut s, " \"");
    push_text(&mut s, spec.target_binary.as_str());
    push_text(&mut s, "\"");
    let ghost base = s@;
    let ghost av = arg_texts(spec.target_args@);
    let mut i: usize = 0;
    assert(av.take(0) =~= Seq::<Seq<char>>::empty());
    assert(base + quoted_args(av.take(0)) =~= base);
    while i < spec.target_args.len()
        invariant
            i <= spec.target_args@.len(),
            av == arg_texts(spec.target_args@),
            " \""@ == seq![' ', '"'],
            "\""@ == seq!['"'],
            s@ == base + quoted_args(av.take(i as int)),
        decreases spec.target_args.len() - i,
    {
        let ghost before = s@;
        push_text(&mut s, " \"");
        push_text(&mut s, spec.target_args[i].as_str());
        push_text(&mut s, "\"");
        assert(av.take(i + 1).drop_last() =~= av.take(i as int));
        assert(av.take(i + 1).last() == spec.target_args@[i as int]@);
        assert(s@ =~= base + quoted_args(av.take(i + 1)));
        i = i + 1;
    }
    assert(av.take(spec.target_args@.len() as int) =~= av);
    push_text(&mut s, " \"$@\"\n");
    s
}

/// The XML escape of one character.
pub open spec fn xml_char(c: char) -> Seq<char> {
    if c == '&' {
        "&amp;"@
    } else if c == '<' {
        "&lt;"@
    } else if c == '>' {
        "&gt;"@
    } else if c == '"' {
        "&quot;"@
    } else {
        seq![c]
    }
}

/// A text with `&`, `<`, `>` and `"` escaped for XML.
pub open spec fn xml_escaped(s: Seq<char>) -> Seq<char>
    decreases s.len(),
{
    if s.len() == 0 {
        Seq::empty()
    } else {
        xml_escaped(s.drop_last()) + xml_char(s.last())
    }
}

/// Escapes `&`, `<`, `>` and `"` for XML.
pub fn escape_xml(s: &str) -> (r: String)
    ensures
        r@ == xml_escaped(s@),
{
    let cs = chars_of(s);
    let mut out = String::new();
    let mut i: usize = 0;
    assert(cs@.take(0) =~= Seq::<char>::empty());
    while i < cs.len()
        invariant
            i <= cs.len(),
            out@ == xml_escaped(cs@.take(i as int)),
        decreases cs.len() - i,
    {
        let c = cs[i];
        assert(cs@.take(i + 1).drop_last() =~= cs@.take(i as int));
        assert(cs@.take(i + 1).last() == c);
        if c == '&' {
            push_text(&mut out, "&amp;");
        } else if c == '<' {
            push_text(&mut out, "&lt;");
        } else if c == '>' {
            push_text(&mut out, "&gt;");
        } else if c == '"' {
            push_text(&mut out, "&quot;");
        } else {
            let one = string_of(&vec![c]);
            assert(one@ =~= seq![c]);
            push_text(&mut out, one.as_str());
        }
        i = i + 1;
    }
    assert(cs@.take(cs.len() as int) =~= cs@);
    out
}

/// The Info.plist of a wrapper: a plain GUI app identity carrying the
/// escaped bundle identifier and label.
pub open spec fn plist_text(bid: Seq<char>, name: Seq<char>) -> Seq<char> {
    "<?xml version=\"1.0\" encoding=\"UTF-8\"?>\n<!DOCTYPE plist PUBLIC \"-//Apple//DTD PLIST 1.0//EN\" \"http://www.apple.com/DTDs/PropertyList-1.0.dtd\">\n<plist version=\"1.0\">\n<dict>\n\t<key>CFBundleExecutable</key>\n\t<string>launcher</string>\n\t<key>CFBundleIdentifier</key>\n\t<string>"@
        + xml_escaped(bid)
        + "</string>\n\t<key>CFBundleName</key>\n\t<string>"@ + xml_escaped(name)
        + "</string>\n\t<key>CFBundleDisplayName</key>\n\t<string>"@ + xml_escaped(name)
        + "</string>\n\t<key>CFBundlePackageType</key>\n\t<string>APPL</string>\n\t<key>LSMinimumSystemVersion</key>\n\t<string>12.0</string>\n</dict>\n</plist>\n"@
}

/// The Info.plist of a wrapper bundle.
pub fn info_plist(spec: &WrapperSpec) -> (r: String)
    ensures
        r@ == plist_text(spec.bundle_id@, spec.label@),
{
    let bid = escape_xml(spec.bundle_id.as_str());
    let name = escape_xml(spec.label.as_str());
    let mut s = to_owned_string(
        "<?xml version=\"1.0\" encoding=\"UTF-8\"?>\n<!DOCTYPE plist PUBLIC \"-//Apple//DTD PLIST 1.0//EN\" \"http://www.apple.com/DTDs/PropertyList-1.0.dtd\">\n<plist version=\"1.0\">\n<dict>\n\t<key>CFBundleExecutable</key>\n\t<string>launcher</string>\n\t<key>CFBundleIdentifier</key>\n\t<string>",
    );
    push_text(&mut s, bid.as_str());
    push_text(&mut s, "</string>\n\t<key>CFBundleName</key>\n\t<string>");
    push_text(&mut s, name.as_str());
    push_text(&mut s, "</string>\n\t<key>CFBundleDisplayName</key>\n\t<string>");
    push_text(&mut s, name.as_str());
    push_text(
        &mut s,
        "</string>\n\t<key>CFBundlePackageType</key>\n\t<string>APPL</string>\n\t<key>LSMinimumSystemVersion</key>\n\t<string>12.0</string>\n</dict>\n</plist>\n",
    );
    s
}

/// `trim_end_matches('/')`.
pub open spec fn trim_trailing_slashes(s: Seq<char>) -> Seq<char>
    decreases s.len(),
{
    if s.len() > 0 && s.last() == '/' {
        trim_trailing_slashes(s.drop_last())
    } else {
        s
    }
}

/// Where a pod's wrapper bundle lives: `{root}/{label}.app`, the root
/// without trailing slashes.
pub fn wrapper_path(root: &str, spec: &WrapperSpec) -> (r: String)
    ensures
        r@ == trim_trailing_slashes(root@) + seq!['/'] + spec.label@ + ".app"@,
{
    let v = chars_of(root);
    let mut hi = v.len();
    assert(v@.take(v.len() as int) =~= v@);
    while hi > 0 && v[hi - 1] == '/'
        invariant
            hi <= v.len(),
            trim_trailing_slashes(v@) == trim_trailing_slashes(v@.take(hi as int)),
        decreases hi,
    {
        assert(v@.take(hi as int).drop_last() =~= v@.take(hi - 1));
        hi = hi - 1;
    }
    let head = slice(&v, 0, hi);
    assert(head@ =~= v@.take(hi as int));
    let h = string_of(&head);
    proof {
        reveal_strlit("/");
    }
    let a = concat3(h.as_str(), "/", spec.label.as_str());
    concat2(a.as_str(), ".app")
}

} // verus!
