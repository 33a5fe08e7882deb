//! The addon ledger: the resources and claims a person added to each pod,
//! one line each: `pod-<id>\t<entry>\t<kind>\t<value>`. Values are
//! sanitized to single lines.

use vstd::prelude::*;
use crate::chars::{has_char, lemma_split_concat, lemma_split_once_concat, lemma_split_single, split_all, strip_cr, lines_of, piece_views, split_once, split_once_char, text_lines};
use crate::pods::pod::{PodClaim, PodResource, claim_subject, resource_value};
use crate::text::{decimal, has_prefix, is_digit, lemma_decimal_digits, lemma_parse_decimal, blank, chars_of, concat2, concat3, is_blank, parse_u64, parse_u64_spec, str_eq,
    string_of, trim, trimmed};
use crate::ledger::observation_log::after_prefix;

verus! {

/// A resource as `(kind, value)`: app 0, file 1, folder 2, URL 3.
pub open spec fn resource_model(r: PodResource) -> (int, Seq<char>) {
    match r {
        PodResource::App(v) => (0, v@),
        PodResource::File(v) => (1, v@),
        PodResource::Folder(v) => (2, v@),
        PodResource::Url(v) => (3, v@),
    }
}

/// A claim as `(kind, value)`: document 0, title 1.
pub open spec fn claim_model(c: PodClaim) -> (int, Seq<char>) {
    match c {
        PodClaim::Document(v) => (0, v@),
        PodClaim::Title(v) => (1, v@),
    }
}

/// The models of resources.
pub open spec fn resource_models(v: Seq<PodResource>) -> Seq<(int, Seq<char>)> {
    v.map_values(|r: PodResource| resource_model(r))
}

/// The models of claims.
pub open spec fn claim_models(v: Seq<PodClaim>) -> Seq<(int, Seq<char>)> {
    v.map_values(|c: PodClaim| claim_model(c))
}

/// Tabs, newlines and carriage returns become spaces.
pub open spec fn single_line(s: Seq<char>) -> Seq<char> {
    s.map_values(|c: char| if c == '\t' || c == '\n' || c == '\r' { ' ' } else { c })
}

/// A value as the ledger stores it: on one line, trimmed.
pub open spec fn sanitized(s: Seq<char>) -> Seq<char> {
    trim(single_line(s))
}

/// The kind word of a resource.
pub open spec fn resource_kind_word(k: int) -> Seq<char> {
    if k == 0 {
        "app"@
    } else if k == 1 {
        "file"@
    } else if k == 2 {
        "folder"@
    } else {
        "url"@
    }
}

/// The kind word of a claim.
pub open spec fn claim_kind_word(k: int) -> Seq<char> {
    if k == 0 {
        "doc"@
    } else {
        "title"@
    }
}

/// The lines of one pod's resources.
pub open spec fn resource_lines(label: Seq<char>, rs: Seq<(int, Seq<char>)>) -> Seq<char>
    decreases rs.len(),
{
    if rs.len() == 0 {
        Seq::empty()
    } else {
        resource_lines(label, rs.drop_last()) + label + "\tresource\t"@ + resource_kind_word(
            rs.last().0,
        ) + seq!['\t'] + sanitized(rs.last().1) + seq!['\n']
    }
}

/// The lines of one pod's claims.
pub open spec fn claim_lines(label: Seq<char>, cs: Seq<(int, Seq<char>)>) -> Seq<char>
    decreases cs.len(),
{
    if cs.len() == 0 {
        Seq::empty()
    } else {
        claim_lines(label, cs.drop_last()) + label + "\tclaim\t"@ + claim_kind_word(cs.last().0)
            + seq!['\t'] + sanitized(cs.last().1) + seq!['\n']
    }
}

/// One pod's entry as the ledger holds it.
pub open spec fn pod_entry_model(p: (String, Vec<PodResource>, Vec<PodClaim>)) -> (
    Seq<char>,
    Seq<(int, Seq<char>)>,
    Seq<(int, Seq<char>)>,
) {
    (p.0@, resource_models(p.1@), claim_models(p.2@))
}

/// The ledger text of the pods: for each pod, its resource lines, then
/// its claim lines.
pub open spec fn export_text(
    pairs: Seq<(Seq<char>, Seq<(int, Seq<char>)>, Seq<(int, Seq<char>)>)>,
) -> Seq<char>
    decreases pairs.len(),
{
    if pairs.len() == 0 {
        Seq::empty()
    } else {
        let p = pairs.last();
        export_text(pairs.drop_last()) + resource_lines(p.0, p.1) + claim_lines(p.0, p.2)
    }
}

fn sanitize(value: &str) -> (r: String)
    ensures
        r@ == sanitized(value@),
{
    let cs = chars_of(value);
    let mut out: Vec<char> = Vec::new();
    let mut i: usize = 0;
    while i < cs.len()
        invariant
            i <= cs.len(),
            out@ == single_line(cs@.take(i as int)),
        decreases cs.len() - i,
    {
        let c = cs[i];
        out.push(if c == '\t' || c == '\n' || c == '\r' { ' ' } else { c });
        assert(out@ =~= single_line(cs@.take(i + 1)));
        i = i + 1;
    }
    assert(cs@.take(cs.len() as int) =~= cs@);
    let s = string_of(&out);
    trimmed(s.as_str())
}

fn push_text(out: &mut String, s: &str)
    ensures
        final(out)@ == old(out)@ + s@,
{
    let joined = concat2(out.as_str(), s);
    *out = joined;
}

fn resource_kind(r: &PodResource) -> (k: &'static str)
    ensures
        k@ == resource_kind_word(resource_model(*r).0),
{
    match r {
        PodResource::App(_) => "app",
        PodResource::File(_) => "file",
        PodResource::Folder(_) => "folder",
        PodResource::Url(_) => "url",
    }
}

fn claim_kind(c: &PodClaim) -> (k: &'static str)
    ensures
        k@ == claim_kind_word(claim_model(*c).0),
{
    match c {
        PodClaim::Document(_) => "doc",
        PodClaim::Title(_) => "title",
    }
}

/// The ledger text of the pods' resources and claims.
pub fn export(pairs: &[(String, Vec<PodResource>, Vec<PodClaim>)]) -> (r: String)
    ensures
        r@ == export_text(pairs@.map_values(
            |p: (String, Vec<PodResource>, Vec<PodClaim>)| pod_entry_model(p),
        )),
{
    let ghost pm = pairs@.map_values(
        |p: (String, Vec<PodResource>, Vec<PodClaim>)| pod_entry_model(p),
    );
    proof {
        reveal_strlit("\t");
        reveal_strlit("\n");
    }
    let mut out = String::new();
    let mut i: usize = 0;
    assert(pm.take(0) =~= Seq::<(Seq<char>, Seq<(int, Seq<char>)>, Seq<(int, Seq<char>)>)>::empty());
    while i < pairs.len()
        invariant
            i <= pairs@.len(),
            pm == pairs@.map_values(
                |p: (String, Vec<PodResource>, Vec<PodClaim>)| pod_entry_model(p),
            ),
            "\t"@ == seq!['\t'],
            "\n"@ == seq!['\n'],
            out@ == export_text(pm.take(i as int)),
        decreases pairs.len() - i,
    {
        let (label, resources, claims) = &pairs[i];
        let ghost base = out@;
        let ghost rm = resource_models(resources@);
        let ghost cm = claim_models(claims@);
        let mut j: usize = 0;
        assert(rm.take(0) =~= Seq::<(int, Seq<char>)>::empty());
        while j < resources.len()
            invariant
                j <= resources@.len(),
                rm == resource_models(resources@),
                "\t"@ == seq!['\t'],
                "\n"@ == seq!['\n'],
                out@ == base + resource_lines(label@, rm.take(j as int)),
            decreases resources.len() - j,
        {
            let r = &resources[j];
            let ghost before = out@;
            push_text(&mut out, label.as_str());
            push_text(&mut out, "\tresource\t");
            push_text(&mut out, resource_kind(r));
            push_text(&mut out, "\t");
            let v = sanitize(r.value());
            push_text(&mut out, v.as_str());
            push_text(&mut out, "\n");
            assert(rm.take(j + 1).drop_last() =~= rm.take(j as int));
            assert(rm.take(j + 1).last() == resource_model(*r));
            assert(resource_value(*r) == resource_model(*r).1);
            assert(out@ =~= base + resource_lines(label@, rm.take(j + 1)));
            j = j + 1;
        }
        assert(rm.take(resources@.len() as int) =~= rm);
        let ghost mid = out@;
        let mut k: usize = 0;
        assert(cm.take(0) =~= Seq::<(int, Seq<char>)>::empty());
        while k < claims.len()
            invariant
                k <= claims@.len(),
                cm == claim_models(claims@),
                "\t"@ == seq!['\t'],
                "\n"@ == seq!['\n'],
                out@ == mid + claim_lines(label@, cm.take(k as int)),
            decreases claims.len() - k,
        {
            let c = &claims[k];
            push_text(&mut out, label.as_str());
            push_text(&mut out, "\tclaim\t");
            push_text(&mut out, claim_kind(c));
            push_text(&mut out, "\t");
            let v = sanitize(c.subject());
            push_text(&mut out, v.as_str());
            push_text(&mut out, "\n");
            assert(cm.take(k + 1).drop_last() =~= cm.take(k as int));
            assert(cm.take(k + 1).last() == claim_model(*c));
            assert(claim_subject(*c) == claim_model(*c).1);
            assert(out@ =~= mid + claim_lines(label@, cm.take(k + 1)));
            k = k + 1;
        }
        assert(cm.take(claims@.len() as int) =~= cm);
        assert(pm.take(i + 1).drop_last() =~= pm.take(i as int));
        assert(pm.take(i + 1).last() == pod_entry_model(pairs@[i as int]));
        assert(out@ =~= export_text(pm.take(i + 1)));
        i = i + 1;
    }
    assert(pm.take(pairs@.len() as int) =~= pm);
    out
}


/// What one ledger line adds: a resource, a claim, or nothing beyond its
/// pod's slot.
pub enum AddonItem {
    Resource((int, Seq<char>)),
    Claim((int, Seq<char>)),
    Nothing,
}

/// One ledger line read: `pod-<id>`, entry, kind and a non-blank value
/// (the value is everything after the third tab). `None` for any other
/// line.
pub open spec fn line_entry(line: Seq<char>) -> Option<(u64, AddonItem)> {
    match split_once(line, '\t') {
        None => None,
        Some((label, r1)) => match split_once(r1, '\t') {
            None => None,
            Some((entry, r2)) => match split_once(r2, '\t') {
                None => None,
                Some((kind, value)) => match after_prefix(label, "pod-"@) {
                    None => None,
                    Some(digits) => match parse_u64_spec(digits) {
                        None => None,
                        Some(id) => if blank(value) {
                            None
                        } else {
                            Some((id, entry_item(entry, kind, value)))
                        },
                    },
                },
            },
        },
    }
}

/// The item an entry word and a kind word name.
pub open spec fn entry_item(entry: Seq<char>, kind: Seq<char>, value: Seq<char>) -> AddonItem {
    if entry == "resource"@ && kind == "app"@ {
        AddonItem::Resource((0, value))
    } else if entry == "resource"@ && kind == "file"@ {
        AddonItem::Resource((1, value))
    } else if entry == "resource"@ && kind == "folder"@ {
        AddonItem::Resource((2, value))
    } else if entry == "resource"@ && kind == "url"@ {
        AddonItem::Resource((3, value))
    } else if entry == "claim"@ && kind == "doc"@ {
        AddonItem::Claim((0, value))
    } else if entry == "claim"@ && kind == "title"@ {
        AddonItem::Claim((1, value))
    } else {
        AddonItem::Nothing
    }
}

/// The entries of the ledger lines, in order.
pub open spec fn ledger_entries(lines: Seq<Seq<char>>) -> Seq<(u64, AddonItem)>
    decreases lines.len(),
{
    if lines.len() == 0 {
        Seq::empty()
    } else {
        let prev = ledger_entries(lines.drop_last());
        match line_entry(lines.last()) {
            Some(e) => prev.push(e),
            None => prev,
        }
    }
}

/// A resource list after one more item: a new resource is appended once.
pub open spec fn step_resources(prev: Seq<(int, Seq<char>)>, it: AddonItem) -> Seq<(int, Seq<char>)> {
    match it {
        AddonItem::Resource(r) => if prev.contains(r) {
            prev
        } else {
            prev.push(r)
        },
        _ => prev,
    }
}

/// A claim list after one more item: a new claim is appended once.
pub open spec fn step_claims(prev: Seq<(int, Seq<char>)>, it: AddonItem) -> Seq<(int, Seq<char>)> {
    match it {
        AddonItem::Claim(c) => if prev.contains(c) {
            prev
        } else {
            prev.push(c)
        },
        _ => prev,
    }
}

/// The resources recorded for pod `id`, each once, in order of first
/// appearance.
pub open spec fn slot_resources(es: Seq<(u64, AddonItem)>, id: u64) -> Seq<(int, Seq<char>)>
    decreases es.len(),
{
    if es.len() == 0 {
        Seq::empty()
    } else if es.last().0 == id {
        step_resources(slot_resources(es.drop_last(), id), es.last().1)
    } else {
        slot_resources(es.drop_last(), id)
    }
}

/// The claims recorded for pod `id`, each once, in order of first
/// appearance.
pub open spec fn slot_claims(es: Seq<(u64, AddonItem)>, id: u64) -> Seq<(int, Seq<char>)>
    decreases es.len(),
{
    if es.len() == 0 {
        Seq::empty()
    } else if es.last().0 == id {
        step_claims(slot_claims(es.drop_last(), id), es.last().1)
    } else {
        slot_claims(es.drop_last(), id)
    }
}

proof fn lemma_slots_absent(es: Seq<(u64, AddonItem)>, id: u64)
    requires
        !has_pod(es, id),
    ensures
        slot_resources(es, id) == Seq::<(int, Seq<char>)>::empty(),
        slot_claims(es, id) == Seq::<(int, Seq<char>)>::empty(),
    decreases es.len(),
{
    if es.len() > 0 {
        assert(es.last() == es[es.len() - 1]);
        assert forall|i: int| 0 <= i < es.drop_last().len() implies (
        #[trigger] es.drop_last()[i]).0 != id by {
            assert(es.drop_last()[i] == es[i]);
        }
        lemma_slots_absent(es.drop_last(), id);
    }
}

/// Some entry concerns pod `id`.
pub open spec fn has_pod(es: Seq<(u64, AddonItem)>, id: u64) -> bool {
    exists|i: int| 0 <= i < es.len() && (#[trigger] es[i]).0 == id
}

/// The pods of an import: one slot per pod id the entries mention, in
/// ascending id order, each with its resources and claims.
pub open spec fn import_matches(
    out: Seq<(u64, Seq<(int, Seq<char>)>, Seq<(int, Seq<char>)>)>,
    es: Seq<(u64, AddonItem)>,
) -> bool {
    &&& forall|a: int, b: int| 0 <= a < b < out.len() ==> (#[trigger] out[a]).0 < (#[trigger] out[b]).0
    &&& forall|id: u64| has_pod(es, id) <==> exists|k: int| 0 <= k < out.len() && (#[trigger] out[k]).0
        == id
    &&& forall|k: int|
        0 <= k < out.len() ==> (#[trigger] out[k]).1 == slot_resources(es, out[k].0) && out[k].2
            == slot_claims(es, out[k].0)
}

/// The model of an imported slot list.
pub open spec fn slots_model(v: Seq<(u64, Vec<PodResource>, Vec<PodClaim>)>) -> Seq<
    (u64, Seq<(int, Seq<char>)>, Seq<(int, Seq<char>)>),
> {
    v.map_values(
        |s: (u64, Vec<PodResource>, Vec<PodClaim>)|
            (s.0, resource_models(s.1@), claim_models(s.2@)),
    )
}

enum ExecItem {
    Resource(PodResource),
    Claim(PodClaim),
    Nothing,
}

fn is_word(v: &String, w: &str) -> (r: bool)
    ensures
        r == (v@ == w@),
{
    str_eq(v.as_str(), w)
}

fn read_line(line: &Vec<char>) -> (r: Option<(u64, ExecItem)>)
    ensures
        match r {
            None => line_entry(line@) is None,
            Some((id, item)) => line_entry(line@) matches Some((i2, it)) && i2 == id && match item {
                ExecItem::Resource(x) => it == AddonItem::Resource(resource_model(x)),
                ExecItem::Claim(x) => it == AddonItem::Claim(claim_model(x)),
                ExecItem::Nothing => it is Nothing,
            },
        },
{
    let (label, r1) = match split_once_char(line, '\t') {
        Some(p) => p,
        None => return None,
    };
    let (entry, r2) = match split_once_char(&r1, '\t') {
        Some(p) => p,
        None => return None,
    };
    let (kind, value) = match split_once_char(&r2, '\t') {
        Some(p) => p,
        None => return None,
    };
    let ls = string_of(&label);
    let prefix = chars_of("pod-");
    if !crate::text::prefix_at(&label, 0, &prefix) {
        assert(label@.subrange(0, label@.len() as int) =~= label@);
        return None;
    }
    assert(label@.subrange(0, label@.len() as int) =~= label@);
    let digits = crate::chars::slice(&label, prefix.len(), label.len());
    assert(digits@ =~= label@.skip("pod-"@.len() as int));
    let ds = string_of(&digits);
    let id = match parse_u64(ds.as_str()) {
        Some(n) => n,
        None => return None,
    };
    let vs = string_of(&value);
    if is_blank(vs.as_str()) {
        return None;
    }
    let es = string_of(&entry);
    let ks = string_of(&kind);
    let item = if is_word(&es, "resource") && is_word(&ks, "app") {
        ExecItem::Resource(PodResource::App(vs))
    } else if is_word(&es, "resource") && is_word(&ks, "file") {
        ExecItem::Resource(PodResource::File(vs))
    } else if is_word(&es, "resource") && is_word(&ks, "folder") {
        ExecItem::Resource(PodResource::Folder(vs))
    } else if is_word(&es, "resource") && is_word(&ks, "url") {
        ExecItem::Resource(PodResource::Url(vs))
    } else if is_word(&es, "claim") && is_word(&ks, "doc") {
        ExecItem::Claim(PodClaim::Document(vs))
    } else if is_word(&es, "claim") && is_word(&ks, "title") {
        ExecItem::Claim(PodClaim::Title(vs))
    } else {
        ExecItem::Nothing
    };
    Some((id, item))
}

fn contains_resource(v: &Vec<PodResource>, r: &PodResource) -> (b: bool)
    ensures
        b == resource_models(v@).contains(resource_model(*r)),
{
    let ghost m = resource_models(v@);
    let mut i: usize = 0;
    while i < v.len()
        invariant
            i <= v.len(),
            m == resource_models(v@),
            forall|j: int| 0 <= j < i ==> m[j] != resource_model(*r),
        decreases v.len() - i,
    {
        assert(m[i as int] == resource_model(v@[i as int]));
        let same = match (&v[i], r) {
            (PodResource::App(a), PodResource::App(b)) => str_eq(a.as_str(), b.as_str()),
            (PodResource::File(a), PodResource::File(b)) => str_eq(a.as_str(), b.as_str()),
            (PodResource::Folder(a), PodResource::Folder(b)) => str_eq(a.as_str(), b.as_str()),
            (PodResource::Url(a), PodResource::Url(b)) => str_eq(a.as_str(), b.as_str()),
            _ => false,
        };
        if same {
            return true;
        }
        i = i + 1;
    }
    false
}

fn contains_claim(v: &Vec<PodClaim>, c: &PodClaim) -> (b: bool)
    ensures
        b == claim_models(v@).contains(claim_model(*c)),
{
    let ghost m = claim_models(v@);
    let mut i: usize = 0;
    while i < v.len()
        invariant
            i <= v.len(),
            m == claim_models(v@),
            forall|j: int| 0 <= j < i ==> m[j] != claim_model(*c),
        decreases v.len() - i,
    {
        assert(m[i as int] == claim_model(v@[i as int]));
        let same = match (&v[i], c) {
            (PodClaim::Document(a), PodClaim::Document(b)) => str_eq(a.as_str(), b.as_str()),
            (PodClaim::Title(a), PodClaim::Title(b)) => str_eq(a.as_str(), b.as_str()),
            _ => false,
        };
        if same {
            return true;
        }
        i = i + 1;
    }
    false
}

/// The slot of `id` in an id-ordered slot list: `Ok(k)` where it stands,
/// `Err(k)` where it would be inserted.
fn find_slot(slots: &Vec<(u64, Vec<PodResource>, Vec<PodClaim>)>, id: u64) -> (r: Result<usize, usize>)
    requires
        forall|a: int, b: int| 0 <= a < b < slots@.len() ==> (#[trigger] slots@[a]).0 < (
        #[trigger] slots@[b]).0,
    ensures
        match r {
            Ok(k) => k < slots@.len() && slots@[k as int].0 == id,
            Err(k) => k <= slots@.len() && (forall|j: int| 0 <= j < k ==> slots@[j].0 < id) && (
            forall|j: int| k <= j < slots@.len() ==> slots@[j].0 > id),
        },
{
    let mut k: usize = 0;
    while k < slots.len() && slots[k].0 < id
        invariant
            k <= slots@.len(),
            forall|j: int| 0 <= j < k ==> slots@[j].0 < id,
        decreases slots.len() - k,
    {
        k = k + 1;
    }
    if k < slots.len() && slots[k].0 == id {
        Ok(k)
    } else {
        proof {
            assert forall|j: int| k <= j < slots@.len() implies slots@[j].0 > id by {
                if j > k {
                    assert(slots@[k as int].0 < slots@[j].0);
                }
            }
        }
        Err(k)
    }
}

fn add_item(slot: (u64, Vec<PodResource>, Vec<PodClaim>), item: ExecItem) -> (r: (
    u64,
    Vec<PodResource>,
    Vec<PodClaim>,
))
    ensures
        r.0 == slot.0,
        resource_models(r.1@) == step_resources(resource_models(slot.1@), exec_item_model(item)),
        claim_models(r.2@) == step_claims(claim_models(slot.2@), exec_item_model(item)),
{
    let (id, mut rs, mut cs) = slot;
    let ghost r0 = resource_models(rs@);
    let ghost c0 = claim_models(cs@);
    match item {
        ExecItem::Resource(x) => {
            if !contains_resource(&rs, &x) {
                let ghost xm = resource_model(x);
                rs.push(x);
                assert(resource_models(rs@) =~= r0.push(xm));
            }
        },
        ExecItem::Claim(x) => {
            if !contains_claim(&cs, &x) {
                let ghost xm = claim_model(x);
                cs.push(x);
                assert(claim_models(cs@) =~= c0.push(xm));
            }
        },
        ExecItem::Nothing => {},
    }
    (id, rs, cs)
}

/// The model of an item read from a line.
spec fn exec_item_model(item: ExecItem) -> AddonItem {
    match item {
        ExecItem::Resource(x) => AddonItem::Resource(resource_model(x)),
        ExecItem::Claim(x) => AddonItem::Claim(claim_model(x)),
        ExecItem::Nothing => AddonItem::Nothing,
    }
}

proof fn lemma_slot_step(es: Seq<(u64, AddonItem)>, e: (u64, AddonItem), id: u64)
    ensures
        slot_resources(es.push(e), id) == if e.0 == id {
            step_resources(slot_resources(es, id), e.1)
        } else {
            slot_resources(es, id)
        },
        slot_claims(es.push(e), id) == if e.0 == id {
            step_claims(slot_claims(es, id), e.1)
        } else {
            slot_claims(es, id)
        },
        has_pod(es.push(e), id) == (has_pod(es, id) || e.0 == id),
{
    assert(es.push(e).drop_last() =~= es);
    if has_pod(es, id) {
        let i = choose|i: int| 0 <= i < es.len() && (#[trigger] es[i]).0 == id;
        assert(es.push(e)[i] == es[i]);
    }
    if e.0 == id {
        assert(es.push(e)[es.len() as int] == e);
    }
    if has_pod(es.push(e), id) {
        let i = choose|i: int| 0 <= i < es.push(e).len() && (#[trigger] es.push(e)[i]).0 == id;
        if i < es.len() {
            assert(es.push(e)[i] == es[i]);
        }
    }
}

proof fn lemma_import_update(
    before: Seq<(u64, Seq<(int, Seq<char>)>, Seq<(int, Seq<char>)>)>,
    es: Seq<(u64, AddonItem)>,
    e: (u64, AddonItem),
    k: int,
)
    requires
        import_matches(before, es),
        0 <= k < before.len(),
        before[k].0 == e.0,
    ensures
        import_matches(
            before.update(
                k,
                (e.0, step_resources(before[k].1, e.1), step_claims(before[k].2, e.1)),
            ),
            es.push(e),
        ),
{
    let after = before.update(k, (e.0, step_resources(before[k].1, e.1), step_claims(before[k].2, e.1)));
    let es2 = es.push(e);
    assert forall|a: int, b: int| 0 <= a < b < after.len() implies (#[trigger] after[a]).0 < (
    #[trigger] after[b]).0 by {
        assert(before[a].0 < before[b].0);
    }
    assert forall|id: u64| has_pod(es2, id) <==> exists|j: int| 0 <= j < after.len() && (
    #[trigger] after[j]).0 == id by {
        lemma_slot_step(es, e, id);
        if has_pod(es, id) {
            let j = choose|j: int| 0 <= j < before.len() && (#[trigger] before[j]).0 == id;
            assert(after[j].0 == id);
        }
        if e.0 == id {
            assert(after[k].0 == id);
        }
        if exists|j: int| 0 <= j < after.len() && (#[trigger] after[j]).0 == id {
            let j = choose|j: int| 0 <= j < after.len() && (#[trigger] after[j]).0 == id;
            assert(before[j].0 == id);
        }
    }
    assert forall|j: int| 0 <= j < after.len() implies (#[trigger] after[j]).1 == slot_resources(
        es2,
        after[j].0,
    ) && after[j].2 == slot_claims(es2, after[j].0) by {
        lemma_slot_step(es, e, after[j].0);
        if j != k {
            assert(before[j].0 != before[k].0) by {
                if j < k {
                    assert(before[j].0 < before[k].0);
                } else {
                    assert(before[k].0 < before[j].0);
                }
            }
        }
    }
}

proof fn lemma_import_insert(
    before: Seq<(u64, Seq<(int, Seq<char>)>, Seq<(int, Seq<char>)>)>,
    es: Seq<(u64, AddonItem)>,
    e: (u64, AddonItem),
    k: int,
)
    requires
        import_matches(before, es),
        0 <= k <= before.len(),
        forall|j: int| 0 <= j < k ==> before[j].0 < e.0,
        forall|j: int| k <= j < before.len() ==> before[j].0 > e.0,
    ensures
        import_matches(
            before.insert(
                k,
                (e.0, step_resources(Seq::empty(), e.1), step_claims(Seq::empty(), e.1)),
            ),
            es.push(e),
        ),
{
    let slot = (e.0, step_resources(Seq::empty(), e.1), step_claims(Seq::empty(), e.1));
    let after = before.insert(k, slot);
    let es2 = es.push(e);
    assert(!has_pod(es, e.0)) by {
        if has_pod(es, e.0) {
            let j = choose|j: int| 0 <= j < before.len() && (#[trigger] before[j]).0 == e.0;
            if j < k {
                assert(before[j].0 < e.0);
            } else {
                assert(before[j].0 > e.0);
            }
        }
    }
    lemma_slots_absent(es, e.0);
    assert forall|j: int| 0 <= j < after.len() implies #[trigger] after[j] == if j < k {
        before[j]
    } else if j == k {
        slot
    } else {
        before[j - 1]
    } by {}
    assert forall|a: int, b: int| 0 <= a < b < after.len() implies (#[trigger] after[a]).0 < (
    #[trigger] after[b]).0 by {
        if a < k && b < k {
            assert(before[a].0 < before[b].0);
        } else if a < k && b > k {
            assert(before[a].0 < e.0 && e.0 < before[b - 1].0);
        } else if a > k {
            assert(before[a - 1].0 < before[b - 1].0);
        } else if a == k {
            assert(before[b - 1].0 > e.0);
        } else {
            assert(before[a].0 < e.0);
        }
    }
    assert forall|id: u64| has_pod(es2, id) <==> exists|j: int| 0 <= j < after.len() && (
    #[trigger] after[j]).0 == id by {
        lemma_slot_step(es, e, id);
        if has_pod(es, id) {
            let j = choose|j: int| 0 <= j < before.len() && (#[trigger] before[j]).0 == id;
            if j < k {
                assert(after[j].0 == id);
            } else {
                assert(after[j + 1].0 == id);
            }
        }
        if e.0 == id {
            assert(after[k].0 == id);
        }
        if exists|j: int| 0 <= j < after.len() && (#[trigger] after[j]).0 == id {
            let j = choose|j: int| 0 <= j < after.len() && (#[trigger] after[j]).0 == id;
            if j < k {
                assert(before[j].0 == id);
            } else if j > k {
                assert(before[j - 1].0 == id);
            }
        }
    }
    assert forall|j: int| 0 <= j < after.len() implies (#[trigger] after[j]).1 == slot_resources(
        es2,
        after[j].0,
    ) && after[j].2 == slot_claims(es2, after[j].0) by {
        lemma_slot_step(es, e, after[j].0);
        if j < k {
            assert(before[j].0 < e.0);
        } else if j > k {
            assert(before[j - 1].0 > e.0);
        }
    }
}

/// Reads the ledger: one slot per pod id mentioned, in ascending id order,
/// each holding its resources and claims once, in order of appearance.
/// Malformed lines and blank values are skipped.
pub fn import(text: &str) -> (r: Vec<(u64, Vec<PodResource>, Vec<PodClaim>)>)
    ensures
        import_matches(slots_model(r@), ledger_entries(text_lines(text@))),
{
    let cs = chars_of(text);
    let lines = lines_of(&cs);
    let ghost lv = piece_views(lines@);
    let mut slots: Vec<(u64, Vec<PodResource>, Vec<PodClaim>)> = Vec::new();
    let mut i: usize = 0;
    assert(lv.take(0) =~= Seq::<Seq<char>>::empty());
    while i < lines.len()
        invariant
            i <= lines.len(),
            lv == piece_views(lines@),
            lv == text_lines(text@),
            import_matches(slots_model(slots@), ledger_entries(lv.take(i as int))),
        decreases lines.len() - i,
    {
        let ghost es = ledger_entries(lv.take(i as int));
        assert(lv.take(i + 1).drop_last() =~= lv.take(i as int));
        assert(lv.take(i + 1).last() == lines@[i as int]@);
        match read_line(&lines[i]) {
            None => {},
            Some((id, item)) => {
                let ghost e = line_entry(lines@[i as int]@)->0;
                let ghost es2 = es.push(e);
                assert(ledger_entries(lv.take(i + 1)) == es2);
                let ghost before = slots_model(slots@);
                assert(e == (id, exec_item_model(item)));
                assert forall|a: int, b: int| 0 <= a < b < slots@.len() implies (
                #[trigger] slots@[a]).0 < (#[trigger] slots@[b]).0 by {
                    assert(before[a].0 == slots@[a].0 && before[b].0 == slots@[b].0);
                }
                match find_slot(&slots, id) {
                    Ok(k) => {
                        let old_slot = slots.remove(k);
                        let ghost ov = (old_slot.0, resource_models(old_slot.1@), claim_models(
                            old_slot.2@,
                        ));
                        assert(ov == before[k as int]);
                        let new_slot = add_item(old_slot, item);
                        slots.insert(k, new_slot);
                        proof {
                            assert(slots_model(slots@) =~= before.update(
                                k as int,
                                (id, step_resources(ov.1, e.1), step_claims(ov.2, e.1)),
                            ));
                            lemma_import_update(before, es, e, k as int);
                        }
                    },
                    Err(k) => {
                        let fresh: (u64, Vec<PodResource>, Vec<PodClaim>) = (id, Vec::new(), Vec::new());
                        assert(resource_models(fresh.1@) =~= Seq::<(int, Seq<char>)>::empty());
                        assert(claim_models(fresh.2@) =~= Seq::<(int, Seq<char>)>::empty());
                        let new_slot = add_item(fresh, item);
                        slots.insert(k, new_slot);
                        proof {
                            assert(slots_model(slots@) =~= before.insert(
                                k as int,
                                (
                                    id,
                                    step_resources(Seq::empty(), e.1),
                                    step_claims(Seq::empty(), e.1),
                                ),
                            ));
                            lemma_import_insert(before, es, e, k as int);
                        }
                    },
                }
            },
        }
        i = i + 1;
    }
    assert(lv.take(lines.len() as int) =~= lv);
    slots
}

// ── Reading back what was written ──────────────────────────────────────────

/// The label of pod `id`: `pod-<id>`.
pub open spec fn pod_label(id: u64) -> Seq<char> {
    "pod-"@ + decimal(id as nat)
}

/// A value the ledger stores as it is: non-blank, already trimmed, and on
/// one line without tabs.
pub open spec fn value_ok(v: Seq<char>) -> bool {
    &&& !blank(v)
    &&& trim(v) == v
    &&& !has_char(v, '\t')
    &&& !has_char(v, '\n')
    &&& !has_char(v, '\r')
}

/// Pods the ledger text gives back exactly: distinct ids, each pod with at
/// least one item, no item twice, every kind known and every value stored
/// as it is.
pub open spec fn store_ok(q: Seq<(u64, Seq<(int, Seq<char>)>, Seq<(int, Seq<char>)>)>) -> bool {
    &&& forall|a: int, b: int| 0 <= a < b < q.len() ==> (#[trigger] q[a]).0 != (#[trigger] q[b]).0
    &&& forall|k: int| 0 <= k < q.len() ==> {
        &&& ((#[trigger] q[k]).1.len() > 0 || q[k].2.len() > 0)
        &&& q[k].1.no_duplicates()
        &&& q[k].2.no_duplicates()
        &&& forall|i: int| 0 <= i < q[k].1.len() ==> 0 <= (#[trigger] q[k].1[i]).0 <= 3 && value_ok(q[k].1[i].1)
        &&& forall|i: int| 0 <= i < q[k].2.len() ==> 0 <= (#[trigger] q[k].2[i]).0 <= 1 && value_ok(q[k].2[i].1)
    }
}

/// The pods as the export takes them: each labelled by its id.
pub open spec fn labelled(q: Seq<(u64, Seq<(int, Seq<char>)>, Seq<(int, Seq<char>)>)>) -> Seq<
    (Seq<char>, Seq<(int, Seq<char>)>, Seq<(int, Seq<char>)>),
> {
    q.map_values(|x: (u64, Seq<(int, Seq<char>)>, Seq<(int, Seq<char>)>)| (pod_label(x.0), x.1, x.2))
}

/// One resource line, without its line end.
pub open spec fn res_line(label: Seq<char>, r: (int, Seq<char>)) -> Seq<char> {
    label + seq!['\t'] + "resource"@ + seq!['\t'] + resource_kind_word(r.0) + seq!['\t'] + r.1
}

/// One claim line, without its line end.
pub open spec fn claim_line(label: Seq<char>, c: (int, Seq<char>)) -> Seq<char> {
    label + seq!['\t'] + "claim"@ + seq!['\t'] + claim_kind_word(c.0) + seq!['\t'] + c.1
}

/// Lines, each ended by `\n`.
pub open spec fn joined(ls: Seq<Seq<char>>) -> Seq<char>
    decreases ls.len(),
{
    if ls.len() == 0 {
        Seq::empty()
    } else {
        joined(ls.drop_last()) + ls.last() + seq!['\n']
    }
}

/// The lines of one pod.
pub open spec fn pod_lines(label: Seq<char>, rs: Seq<(int, Seq<char>)>, cs: Seq<(int, Seq<char>)>) -> Seq<Seq<char>> {
    rs.map_values(|r: (int, Seq<char>)| res_line(label, r)) + cs.map_values(|c: (int, Seq<char>)| claim_line(label, c))
}

/// The lines of all pods.
pub open spec fn all_lines(q: Seq<(u64, Seq<(int, Seq<char>)>, Seq<(int, Seq<char>)>)>) -> Seq<Seq<char>>
    decreases q.len(),
{
    if q.len() == 0 {
        Seq::empty()
    } else {
        all_lines(q.drop_last()) + pod_lines(pod_label(q.last().0), q.last().1, q.last().2)
    }
}

proof fn lemma_value_stored(v: Seq<char>)
    requires
        value_ok(v),
    ensures
        sanitized(v) == v,
        v.len() > 0,
        v.last() != '\r',
{
    assert(single_line(v) =~= v) by {
        assert forall|i: int| 0 <= i < v.len() implies single_line(v)[i] == v[i] by {
            if v[i] == '\t' || v[i] == '\n' || v[i] == '\r' {
                assert(has_char(v, v[i]));
            }
        }
    }
    if v.len() == 0 {
        assert(blank(v));
    }
    assert(has_char(v, v.last()) ==> v.last() != '\r');
    assert(v[v.len() - 1] == v.last());
}

proof fn lemma_joined_concat(a: Seq<Seq<char>>, b: Seq<Seq<char>>)
    ensures
        joined(a + b) == joined(a) + joined(b),
    decreases b.len(),
{
    if b.len() > 0 {
        lemma_joined_concat(a, b.drop_last());
        assert((a + b).drop_last() =~= a + b.drop_last());
        assert((a + b).last() == b.last());
    } else {
        assert(a + b =~= a);
    }
}

proof fn lemma_resource_lines(label: Seq<char>, rs: Seq<(int, Seq<char>)>)
    requires
        forall|i: int| 0 <= i < rs.len() ==> value_ok((#[trigger] rs[i]).1),
    ensures
        resource_lines(label, rs) == joined(rs.map_values(|r: (int, Seq<char>)| res_line(label, r))),
    decreases rs.len(),
{
    reveal_strlit("\tresource\t");
    reveal_strlit("resource");
    if rs.len() > 0 {
        assert forall|i: int| 0 <= i < rs.drop_last().len() implies value_ok((#[trigger] rs.drop_last()[i]).1) by {
            assert(rs.drop_last()[i] == rs[i]);
        }
        lemma_resource_lines(label, rs.drop_last());
        lemma_value_stored(rs.last().1);
        assert(rs[rs.len() - 1] == rs.last());
        let m = rs.map_values(|r: (int, Seq<char>)| res_line(label, r));
        assert(m.drop_last() =~= rs.drop_last().map_values(|r: (int, Seq<char>)| res_line(label, r)));
        assert("\tresource\t"@ =~= seq!['\t'] + "resource"@ + seq!['\t']);
        assert(resource_lines(label, rs) =~= joined(m));
    }
}

proof fn lemma_claim_lines(label: Seq<char>, cs: Seq<(int, Seq<char>)>)
    requires
        forall|i: int| 0 <= i < cs.len() ==> value_ok((#[trigger] cs[i]).1),
    ensures
        claim_lines(label, cs) == joined(cs.map_values(|c: (int, Seq<char>)| claim_line(label, c))),
    decreases cs.len(),
{
    reveal_strlit("\tclaim\t");
    reveal_strlit("claim");
    if cs.len() > 0 {
        assert forall|i: int| 0 <= i < cs.drop_last().len() implies value_ok((#[trigger] cs.drop_last()[i]).1) by {
            assert(cs.drop_last()[i] == cs[i]);
        }
        lemma_claim_lines(label, cs.drop_last());
        lemma_value_stored(cs.last().1);
        assert(cs[cs.len() - 1] == cs.last());
        let m = cs.map_values(|c: (int, Seq<char>)| claim_line(label, c));
        assert(m.drop_last() =~= cs.drop_last().map_values(|c: (int, Seq<char>)| claim_line(label, c)));
        assert("\tclaim\t"@ =~= seq!['\t'] + "claim"@ + seq!['\t']);
        assert(claim_lines(label, cs) =~= joined(m));
    }
}

proof fn lemma_export_joined(q: Seq<(u64, Seq<(int, Seq<char>)>, Seq<(int, Seq<char>)>)>)
    requires
        store_ok(q),
    ensures
        export_text(labelled(q)) == joined(all_lines(q)),
    decreases q.len(),
{
    if q.len() > 0 {
        let p = q.drop_last();
        assert(store_ok(p)) by {
            assert forall|k: int| 0 <= k < p.len() implies #[trigger] p[k] == q[k] by {}
        }
        lemma_export_joined(p);
        assert(labelled(q).drop_last() =~= labelled(p));
        let x = q.last();
        assert(x == q[q.len() - 1]);
        lemma_resource_lines(pod_label(x.0), x.1);
        lemma_claim_lines(pod_label(x.0), x.2);
        lemma_joined_concat(
            x.1.map_values(|r: (int, Seq<char>)| res_line(pod_label(x.0), r)),
            x.2.map_values(|c: (int, Seq<char>)| claim_line(pod_label(x.0), c)),
        );
        lemma_joined_concat(all_lines(p), pod_lines(pod_label(x.0), x.1, x.2));
        assert(labelled(q).last() == (pod_label(x.0), x.1, x.2));
    }
}

proof fn lemma_label_plain(id: u64)
    ensures
        !has_char(pod_label(id), '\t'),
        !has_char(pod_label(id), '\n'),
        after_prefix(pod_label(id), "pod-"@) == Some(decimal(id as nat)),
        parse_u64_spec(decimal(id as nat)) == Some(id),
{
    reveal_strlit("pod-");
    lemma_decimal_digits(id as nat);
    lemma_parse_decimal(id);
    let l = pod_label(id);
    assert forall|i: int| 0 <= i < l.len() implies l[i] != '\t' && l[i] != '\n' by {
        if i >= 4 {
            assert(l[i] == decimal(id as nat)[i - 4]);
            assert(is_digit(decimal(id as nat)[i - 4]));
        }
    }
    assert(has_prefix(l, "pod-"@)) by {
        assert(l.take(4) =~= "pod-"@);
    }
    assert(l.skip(4) =~= decimal(id as nat));
}

proof fn lemma_words_plain(k: int)
    ensures
        !has_char(resource_kind_word(k), '\t'),
        !has_char(resource_kind_word(k), '\n'),
        !has_char(claim_kind_word(k), '\t'),
        !has_char(claim_kind_word(k), '\n'),
        !has_char("resource"@, '\t'),
        !has_char("resource"@, '\n'),
        !has_char("claim"@, '\t'),
        !has_char("claim"@, '\n'),
{
    reveal_strlit("app");
    reveal_strlit("file");
    reveal_strlit("folder");
    reveal_strlit("url");
    reveal_strlit("doc");
    reveal_strlit("title");
    reveal_strlit("resource");
    reveal_strlit("claim");
}

proof fn lemma_no_char_concat(a: Seq<char>, b: Seq<char>, c: char)
    requires
        !has_char(a, c),
        !has_char(b, c),
    ensures
        !has_char(a + b, c),
{
    if has_char(a + b, c) {
        let i = choose|i: int| 0 <= i < (a + b).len() && (a + b)[i] == c;
        if i < a.len() {
            assert(a[i] == c);
        } else {
            assert(b[i - a.len()] == c);
        }
    }
}

proof fn lemma_entry_words(k: int, v: Seq<char>)
    ensures
        0 <= k <= 3 ==> entry_item("resource"@, resource_kind_word(k), v) == AddonItem::Resource((k, v)),
        0 <= k <= 1 ==> entry_item("claim"@, claim_kind_word(k), v) == AddonItem::Claim((k, v)),
{
    reveal_strlit("resource");
    reveal_strlit("claim");
    reveal_strlit("app");
    reveal_strlit("file");
    reveal_strlit("folder");
    reveal_strlit("url");
    reveal_strlit("doc");
    reveal_strlit("title");
    assert("resource"@.len() == 8 && "claim"@.len() == 5);
    assert("app"@.len() == 3 && "file"@.len() == 4 && "folder"@.len() == 6 && "url"@.len() == 3);
    assert("doc"@.len() == 3 && "title"@.len() == 5);
    assert("app"@[0] != "url"@[0]);
}

/// A resource line reads back as the resource it was written from.
#[verifier::spinoff_prover]
#[verifier::rlimit(80)]
proof fn lemma_res_line_reads(id: u64, r: (int, Seq<char>))
    requires
        0 <= r.0 <= 3,
        value_ok(r.1),
    ensures
        line_entry(res_line(pod_label(id), r)) == Some((id, AddonItem::Resource(r))),
        !has_char(res_line(pod_label(id), r), '\n'),
        res_line(pod_label(id), r).last() != '\r',
{
    lemma_label_plain(id);
    lemma_words_plain(r.0);
    lemma_value_stored(r.1);
    let l = pod_label(id);
    let e = "resource"@;
    let k = resource_kind_word(r.0);
    let v = r.1;
    let t = seq!['\t'];
    assert(!has_char(t, '\n')) by {
        if has_char(t, '\n') {
            let i = choose|i: int| 0 <= i < t.len() && t[i] == '\n';
        }
    }
    let r1 = e + t + k + t + v;
    let r2 = k + t + v;
    assert(res_line(l, r) =~= l + t + r1);
    assert(r1 =~= e + t + r2);
    lemma_split_once_concat(l, r1, '\t');
    lemma_split_once_concat(e, r2, '\t');
    lemma_split_once_concat(k, v, '\t');
    lemma_entry_words(r.0, v);
    lemma_no_char_concat(l, t, '\n');
    lemma_no_char_concat(l + t, e, '\n');
    lemma_no_char_concat(l + t + e, t, '\n');
    lemma_no_char_concat(l + t + e + t, k, '\n');
    lemma_no_char_concat(l + t + e + t + k, t, '\n');
    lemma_no_char_concat(l + t + e + t + k + t, v, '\n');
    assert(res_line(l, r).last() == v.last());
}

/// A claim line reads back as the claim it was written from.
#[verifier::spinoff_prover]
#[verifier::rlimit(80)]
proof fn lemma_claim_line_reads(id: u64, c: (int, Seq<char>))
    requires
        0 <= c.0 <= 1,
        value_ok(c.1),
    ensures
        line_entry(claim_line(pod_label(id), c)) == Some((id, AddonItem::Claim(c))),
        !has_char(claim_line(pod_label(id), c), '\n'),
        claim_line(pod_label(id), c).last() != '\r',
{
    lemma_label_plain(id);
    lemma_words_plain(c.0);
    lemma_value_stored(c.1);
    let l = pod_label(id);
    let e = "claim"@;
    let k = claim_kind_word(c.0);
    let v = c.1;
    let t = seq!['\t'];
    assert(!has_char(t, '\n')) by {
        if has_char(t, '\n') {
            let i = choose|i: int| 0 <= i < t.len() && t[i] == '\n';
        }
    }
    let r1 = e + t + k + t + v;
    let r2 = k + t + v;
    assert(claim_line(l, c) =~= l + t + r1);
    assert(r1 =~= e + t + r2);
    lemma_split_once_concat(l, r1, '\t');
    lemma_split_once_concat(e, r2, '\t');
    lemma_split_once_concat(k, v, '\t');
    lemma_entry_words(c.0, v);
    lemma_no_char_concat(l, t, '\n');
    lemma_no_char_concat(l + t, e, '\n');
    lemma_no_char_concat(l + t + e, t, '\n');
    lemma_no_char_concat(l + t + e + t, k, '\n');
    lemma_no_char_concat(l + t + e + t + k, t, '\n');
    lemma_no_char_concat(l + t + e + t + k + t, v, '\n');
    assert(claim_line(l, c).last() == v.last());
}

/// Lines without `\n`, each ending in a character other than `\r`.
pub open spec fn clean_lines(ls: Seq<Seq<char>>) -> bool {
    forall|i: int| 0 <= i < ls.len() ==> !has_char(#[trigger] ls[i], '\n') && ls[i].len() > 0 && ls[i].last() != '\r'
}

proof fn lemma_split_joined(ls: Seq<Seq<char>>)
    requires
        clean_lines(ls),
    ensures
        split_all(joined(ls), '\n') == ls.push(Seq::<char>::empty()),
    decreases ls.len(),
{
    if ls.len() == 0 {
        assert(!has_char(Seq::<char>::empty(), '\n'));
        lemma_split_single(Seq::<char>::empty(), '\n');
        assert(joined(ls) =~= Seq::<char>::empty());
        assert(ls.push(Seq::<char>::empty()) =~= seq![Seq::<char>::empty()]);
    } else {
        let rest = ls.drop_first();
        assert(clean_lines(rest)) by {
            assert forall|i: int| 0 <= i < rest.len() implies !has_char(#[trigger] rest[i], '\n') && rest[i].len() > 0
                && rest[i].last() != '\r' by {
                assert(rest[i] == ls[i + 1]);
            }
        }
        lemma_split_joined(rest);
        lemma_joined_concat(seq![ls[0]], rest);
        assert(seq![ls[0]] + rest =~= ls);
        assert(seq![ls[0]].drop_last() =~= Seq::<Seq<char>>::empty());
        assert(joined(Seq::<Seq<char>>::empty()) =~= Seq::<char>::empty());
        assert(seq![ls[0]].last() == ls[0]);
        assert(joined(seq![ls[0]]) =~= ls[0] + seq!['\n']);
        assert(joined(ls) =~= ls[0] + seq!['\n'] + joined(rest));
        lemma_split_concat(ls[0], joined(rest), '\n');
        assert(seq![ls[0]] + rest.push(Seq::<char>::empty()) =~= ls.push(Seq::<char>::empty()));
    }
}

proof fn lemma_lines_joined(ls: Seq<Seq<char>>)
    requires
        clean_lines(ls),
    ensures
        text_lines(joined(ls)) == ls,
{
    lemma_split_joined(ls);
    let pieces = ls.push(Seq::<char>::empty());
    assert(pieces.drop_last() =~= ls);
    assert(ls.map_values(|l: Seq<char>| strip_cr(l)) =~= ls) by {
        assert forall|i: int| 0 <= i < ls.len() implies strip_cr(ls[i]) == ls[i] by {}
    }
}

proof fn lemma_entries_concat(a: Seq<Seq<char>>, b: Seq<Seq<char>>)
    ensures
        ledger_entries(a + b) == ledger_entries(a) + ledger_entries(b),
    decreases b.len(),
{
    if b.len() > 0 {
        lemma_entries_concat(a, b.drop_last());
        assert((a + b).drop_last() =~= a + b.drop_last());
        assert((a + b).last() == b.last());
    } else {
        assert(a + b =~= a);
    }
}

/// The entries one pod's items are written as.
pub open spec fn pod_entries(id: u64, rs: Seq<(int, Seq<char>)>, cs: Seq<(int, Seq<char>)>) -> Seq<(u64, AddonItem)> {
    rs.map_values(|r: (int, Seq<char>)| (id, AddonItem::Resource(r))) + cs.map_values(
        |c: (int, Seq<char>)| (id, AddonItem::Claim(c)),
    )
}

/// The entries all pods' items are written as.
pub open spec fn all_entries(q: Seq<(u64, Seq<(int, Seq<char>)>, Seq<(int, Seq<char>)>)>) -> Seq<(u64, AddonItem)>
    decreases q.len(),
{
    if q.len() == 0 {
        Seq::empty()
    } else {
        all_entries(q.drop_last()) + pod_entries(q.last().0, q.last().1, q.last().2)
    }
}

#[verifier::rlimit(60)]
proof fn lemma_res_entries(id: u64, rs: Seq<(int, Seq<char>)>)
    requires
        forall|i: int| 0 <= i < rs.len() ==> 0 <= (#[trigger] rs[i]).0 <= 3 && value_ok(rs[i].1),
    ensures
        ledger_entries(rs.map_values(|r: (int, Seq<char>)| res_line(pod_label(id), r))) == rs.map_values(
            |r: (int, Seq<char>)| (id, AddonItem::Resource(r)),
        ),
    decreases rs.len(),
{
    let m = rs.map_values(|r: (int, Seq<char>)| res_line(pod_label(id), r));
    if rs.len() > 0 {
        let p = rs.drop_last();
        assert forall|i: int| 0 <= i < p.len() implies 0 <= (#[trigger] p[i]).0 <= 3 && value_ok(p[i].1) by {
            assert(p[i] == rs[i]);
        }
        lemma_res_entries(id, p);
        assert(m.drop_last() =~= p.map_values(|r: (int, Seq<char>)| res_line(pod_label(id), r)));
        assert(rs[rs.len() - 1] == rs.last());
        lemma_res_line_reads(id, rs.last());
        assert(m.last() == res_line(pod_label(id), rs.last()));
        assert(rs.map_values(|r: (int, Seq<char>)| (id, AddonItem::Resource(r))) =~= p.map_values(
            |r: (int, Seq<char>)| (id, AddonItem::Resource(r)),
        ).push((id, AddonItem::Resource(rs.last()))));
    }
}

#[verifier::rlimit(60)]
proof fn lemma_claim_entries(id: u64, cs: Seq<(int, Seq<char>)>)
    requires
        forall|i: int| 0 <= i < cs.len() ==> 0 <= (#[trigger] cs[i]).0 <= 1 && value_ok(cs[i].1),
    ensures
        ledger_entries(cs.map_values(|c: (int, Seq<char>)| claim_line(pod_label(id), c))) == cs.map_values(
            |c: (int, Seq<char>)| (id, AddonItem::Claim(c)),
        ),
    decreases cs.len(),
{
    let m = cs.map_values(|c: (int, Seq<char>)| claim_line(pod_label(id), c));
    if cs.len() > 0 {
        let p = cs.drop_last();
        assert forall|i: int| 0 <= i < p.len() implies 0 <= (#[trigger] p[i]).0 <= 1 && value_ok(p[i].1) by {
            assert(p[i] == cs[i]);
        }
        lemma_claim_entries(id, p);
        assert(m.drop_last() =~= p.map_values(|c: (int, Seq<char>)| claim_line(pod_label(id), c)));
        assert(cs[cs.len() - 1] == cs.last());
        lemma_claim_line_reads(id, cs.last());
        assert(m.last() == claim_line(pod_label(id), cs.last()));
        assert(cs.map_values(|c: (int, Seq<char>)| (id, AddonItem::Claim(c))) =~= p.map_values(
            |c: (int, Seq<char>)| (id, AddonItem::Claim(c)),
        ).push((id, AddonItem::Claim(cs.last()))));
    }
}

proof fn lemma_res_clean(id: u64, rs: Seq<(int, Seq<char>)>)
    requires
        forall|i: int| 0 <= i < rs.len() ==> 0 <= (#[trigger] rs[i]).0 <= 3 && value_ok(rs[i].1),
    ensures
        clean_lines(rs.map_values(|r: (int, Seq<char>)| res_line(pod_label(id), r))),
{
    let m = rs.map_values(|r: (int, Seq<char>)| res_line(pod_label(id), r));
    assert forall|i: int| 0 <= i < m.len() implies !has_char(#[trigger] m[i], '\n') && m[i].len() > 0 && m[i].last() != '\r' by {
        lemma_res_line_reads(id, rs[i]);
        assert(m[i] == res_line(pod_label(id), rs[i]));
        lemma_value_stored(rs[i].1);
        assert(m[i].len() > 0);
    }
}

proof fn lemma_claim_clean(id: u64, cs: Seq<(int, Seq<char>)>)
    requires
        forall|i: int| 0 <= i < cs.len() ==> 0 <= (#[trigger] cs[i]).0 <= 1 && value_ok(cs[i].1),
    ensures
        clean_lines(cs.map_values(|c: (int, Seq<char>)| claim_line(pod_label(id), c))),
{
    let m = cs.map_values(|c: (int, Seq<char>)| claim_line(pod_label(id), c));
    assert forall|i: int| 0 <= i < m.len() implies !has_char(#[trigger] m[i], '\n') && m[i].len() > 0 && m[i].last() != '\r' by {
        lemma_claim_line_reads(id, cs[i]);
        assert(m[i] == claim_line(pod_label(id), cs[i]));
        lemma_value_stored(cs[i].1);
        assert(m[i].len() > 0);
    }
}

proof fn lemma_clean_concat(a: Seq<Seq<char>>, b: Seq<Seq<char>>)
    requires
        clean_lines(a),
        clean_lines(b),
    ensures
        clean_lines(a + b),
{
    assert forall|i: int| 0 <= i < (a + b).len() implies !has_char(#[trigger] (a + b)[i], '\n') && (a + b)[i].len() > 0
        && (a + b)[i].last() != '\r' by {
        if i < a.len() {
            assert((a + b)[i] == a[i]);
        } else {
            assert((a + b)[i] == b[i - a.len()]);
        }
    }
}

proof fn lemma_all_entries(q: Seq<(u64, Seq<(int, Seq<char>)>, Seq<(int, Seq<char>)>)>)
    requires
        store_ok(q),
    ensures
        ledger_entries(all_lines(q)) == all_entries(q),
        clean_lines(all_lines(q)),
    decreases q.len(),
{
    if q.len() == 0 {
        assert(clean_lines(all_lines(q)));
    } else {
        let p = q.drop_last();
        assert(store_ok(p)) by {
            assert forall|k: int| 0 <= k < p.len() implies #[trigger] p[k] == q[k] by {}
        }
        lemma_all_entries(p);
        let x = q.last();
        assert(x == q[q.len() - 1]);
        lemma_res_entries(x.0, x.1);
        lemma_claim_entries(x.0, x.2);
        lemma_res_clean(x.0, x.1);
        lemma_claim_clean(x.0, x.2);
        let rl = x.1.map_values(|r: (int, Seq<char>)| res_line(pod_label(x.0), r));
        let cl = x.2.map_values(|c: (int, Seq<char>)| claim_line(pod_label(x.0), c));
        lemma_entries_concat(rl, cl);
        lemma_entries_concat(all_lines(p), rl + cl);
        lemma_clean_concat(rl, cl);
        lemma_clean_concat(all_lines(p), rl + cl);
    }
}

proof fn lemma_all_entries_concat(
    a: Seq<(u64, Seq<(int, Seq<char>)>, Seq<(int, Seq<char>)>)>,
    b: Seq<(u64, Seq<(int, Seq<char>)>, Seq<(int, Seq<char>)>)>,
)
    ensures
        all_entries(a + b) == all_entries(a) + all_entries(b),
    decreases b.len(),
{
    if b.len() > 0 {
        lemma_all_entries_concat(a, b.drop_last());
        assert((a + b).drop_last() =~= a + b.drop_last());
        assert((a + b).last() == b.last());
    } else {
        assert(a + b =~= a);
    }
}

proof fn lemma_all_entries_ids(q: Seq<(u64, Seq<(int, Seq<char>)>, Seq<(int, Seq<char>)>)>)
    ensures
        forall|i: int| 0 <= i < all_entries(q).len() ==> exists|k: int| 0 <= k < q.len() && (#[trigger] all_entries(q)[i]).0 == q[k].0,
    decreases q.len(),
{
    if q.len() > 0 {
        let p = q.drop_last();
        lemma_all_entries_ids(p);
        let a = all_entries(p);
        let x = q.last();
        let e = all_entries(q);
        assert forall|i: int| 0 <= i < e.len() implies exists|k: int| 0 <= k < q.len() && (#[trigger] e[i]).0 == q[k].0 by {
            if i < a.len() {
                assert(e[i] == a[i]);
                let k = choose|k: int| 0 <= k < p.len() && a[i].0 == p[k].0;
                assert(p[k] == q[k]);
            } else {
                let pe = pod_entries(x.0, x.1, x.2);
                assert(e[i] == pe[i - a.len()]);
                let j = i - a.len();
                if j < x.1.len() {
                    assert(pe[j] == (x.0, AddonItem::Resource(x.1[j])));
                } else {
                    assert(pe[j] == (x.0, AddonItem::Claim(x.2[j - x.1.len()])));
                }
                assert(q[q.len() - 1] == x);
            }
        }
    }
}

proof fn lemma_slot_skip_tail(a: Seq<(u64, AddonItem)>, b: Seq<(u64, AddonItem)>, id: u64)
    requires
        forall|i: int| 0 <= i < b.len() ==> (#[trigger] b[i]).0 != id,
    ensures
        slot_resources(a + b, id) == slot_resources(a, id),
        slot_claims(a + b, id) == slot_claims(a, id),
    decreases b.len(),
{
    if b.len() > 0 {
        assert forall|i: int| 0 <= i < b.drop_last().len() implies (#[trigger] b.drop_last()[i]).0 != id by {
            assert(b.drop_last()[i] == b[i]);
        }
        lemma_slot_skip_tail(a, b.drop_last(), id);
        assert((a + b).drop_last() =~= a + b.drop_last());
        assert((a + b).last() == b[b.len() - 1]);
    } else {
        assert(a + b =~= a);
    }
}

proof fn lemma_slot_skip_head(a: Seq<(u64, AddonItem)>, b: Seq<(u64, AddonItem)>, id: u64)
    requires
        !has_pod(a, id),
    ensures
        slot_resources(a + b, id) == slot_resources(b, id),
        slot_claims(a + b, id) == slot_claims(b, id),
    decreases b.len(),
{
    if b.len() > 0 {
        lemma_slot_skip_head(a, b.drop_last(), id);
        assert((a + b).drop_last() =~= a + b.drop_last());
        assert((a + b).last() == b.last());
    } else {
        assert(a + b =~= a);
        lemma_slots_absent(a, id);
    }
}

proof fn lemma_res_slots(id: u64, rs: Seq<(int, Seq<char>)>)
    requires
        rs.no_duplicates(),
    ensures
        slot_resources(rs.map_values(|r: (int, Seq<char>)| (id, AddonItem::Resource(r))), id) == rs,
        slot_claims(rs.map_values(|r: (int, Seq<char>)| (id, AddonItem::Resource(r))), id) == Seq::<(int, Seq<char>)>::empty(),
    decreases rs.len(),
{
    let m = rs.map_values(|r: (int, Seq<char>)| (id, AddonItem::Resource(r)));
    if rs.len() > 0 {
        let p = rs.drop_last();
        assert(p.no_duplicates()) by {
            assert forall|i: int, j: int| 0 <= i < p.len() && 0 <= j < p.len() && i != j implies p[i] != p[j] by {
                assert(p[i] == rs[i] && p[j] == rs[j]);
            }
        }
        lemma_res_slots(id, p);
        assert(m.drop_last() =~= p.map_values(|r: (int, Seq<char>)| (id, AddonItem::Resource(r))));
        assert(m.last() == (id, AddonItem::Resource(rs.last())));
        assert(!p.contains(rs.last())) by {
            if p.contains(rs.last()) {
                let j = choose|j: int| 0 <= j < p.len() && p[j] == rs.last();
                assert(rs[j] == rs[rs.len() - 1]);
            }
        }
        assert(p.push(rs.last()) =~= rs);
    } else {
        assert(m.len() == 0);
    }
}

proof fn lemma_claim_slots(id: u64, rs: Seq<(int, Seq<char>)>, cs: Seq<(int, Seq<char>)>)
    requires
        rs.no_duplicates(),
        cs.no_duplicates(),
    ensures
        slot_resources(pod_entries(id, rs, cs), id) == rs,
        slot_claims(pod_entries(id, rs, cs), id) == cs,
    decreases cs.len(),
{
    let rm = rs.map_values(|r: (int, Seq<char>)| (id, AddonItem::Resource(r)));
    let cm = cs.map_values(|c: (int, Seq<char>)| (id, AddonItem::Claim(c)));
    lemma_res_slots(id, rs);
    if cs.len() > 0 {
        let p = cs.drop_last();
        assert(p.no_duplicates()) by {
            assert forall|i: int, j: int| 0 <= i < p.len() && 0 <= j < p.len() && i != j implies p[i] != p[j] by {
                assert(p[i] == cs[i] && p[j] == cs[j]);
            }
        }
        lemma_claim_slots(id, rs, p);
        let e = pod_entries(id, rs, cs);
        assert(e.drop_last() =~= pod_entries(id, rs, p));
        assert(e.last() == (id, AddonItem::Claim(cs.last())));
        assert(!p.contains(cs.last())) by {
            if p.contains(cs.last()) {
                let j = choose|j: int| 0 <= j < p.len() && p[j] == cs.last();
                assert(cs[j] == cs[cs.len() - 1]);
            }
        }
        assert(p.push(cs.last()) =~= cs);
    } else {
        assert(pod_entries(id, rs, cs) =~= rm);
    }
}

/// Importing what was exported gives the pods back: for pods with
/// distinct ids, at least one item each, no item twice, known kinds and
/// values stored as they are, the import of the export text holds exactly
/// those pods, each once, in ascending id order; pods given in ascending id
/// order come back as they were given.
pub proof fn lemma_import_after_export(
    q: Seq<(u64, Seq<(int, Seq<char>)>, Seq<(int, Seq<char>)>)>,
    out: Seq<(u64, Seq<(int, Seq<char>)>, Seq<(int, Seq<char>)>)>,
)
    requires
        store_ok(q),
        import_matches(out, ledger_entries(text_lines(export_text(labelled(q))))),
    ensures
        forall|a: int, b: int| 0 <= a < b < out.len() ==> (#[trigger] out[a]).0 < (#[trigger] out[b]).0,
        out.len() == q.len(),
        out.to_multiset() == q.to_multiset(),
        (forall|a: int, b: int| 0 <= a < b < q.len() ==> (#[trigger] q[a]).0 < (#[trigger] q[b]).0) ==> out == q,
{
    lemma_export_joined(q);
    lemma_all_entries(q);
    lemma_lines_joined(all_lines(q));
    let es = all_entries(q);
    assert(ledger_entries(text_lines(export_text(labelled(q)))) == es);
    lemma_all_entries_ids(q);
    // Each pod's id has entries exactly from that pod.
    assert forall|k: int| 0 <= k < q.len() implies has_pod(es, (#[trigger] q[k]).0) && slot_resources(es, q[k].0) == q[k].1
        && slot_claims(es, q[k].0) == q[k].2 by {
        let id = q[k].0;
        let a = q.take(k);
        let b = q.skip(k + 1);
        assert(q =~= a + seq![q[k]] + b);
        lemma_all_entries_concat(a + seq![q[k]], b);
        lemma_all_entries_concat(a, seq![q[k]]);
        let one = seq![q[k]];
        assert(one.drop_last() =~= Seq::<(u64, Seq<(int, Seq<char>)>, Seq<(int, Seq<char>)>)>::empty());
        assert(one.last() == q[k]);
        assert(all_entries(one.drop_last()) =~= Seq::<(u64, AddonItem)>::empty());
        assert(all_entries(one) == all_entries(one.drop_last()) + pod_entries(id, q[k].1, q[k].2));
        assert(all_entries(one) =~= pod_entries(id, q[k].1, q[k].2));
        let ea = all_entries(a);
        let ep = pod_entries(id, q[k].1, q[k].2);
        let eb = all_entries(b);
        assert(es == ea + ep + eb);
        lemma_all_entries_ids(a);
        lemma_all_entries_ids(b);
        assert(!has_pod(ea, id)) by {
            if has_pod(ea, id) {
                let i = choose|i: int| 0 <= i < ea.len() && (#[trigger] ea[i]).0 == id;
                let j = choose|j: int| 0 <= j < a.len() && ea[i].0 == a[j].0;
                assert(a[j] == q[j]);
            }
        }
        assert forall|i: int| 0 <= i < eb.len() implies (#[trigger] eb[i]).0 != id by {
            let j = choose|j: int| 0 <= j < b.len() && eb[i].0 == b[j].0;
            assert(b[j] == q[k + 1 + j]);
        }
        lemma_claim_slots(id, q[k].1, q[k].2);
        lemma_slot_skip_head(ea, ep, id);
        lemma_slot_skip_tail(ea + ep, eb, id);
        assert(ep.len() > 0);
        if q[k].1.len() > 0 {
            assert(ep[0] == (id, AddonItem::Resource(q[k].1[0])));
        } else {
            assert(ep[0] == (id, AddonItem::Claim(q[k].2[0])));
        }
        assert(es[ea.len() as int] == ep[0]);
    }
    // Every pod of `q` comes out, and only those.
    assert forall|k: int| 0 <= k < q.len() implies out.contains(#[trigger] q[k]) by {
        assert(has_pod(es, q[k].0));
        let m = choose|m: int| 0 <= m < out.len() && (#[trigger] out[m]).0 == q[k].0;
        assert(out[m] == q[k]);
    }
    assert forall|m: int| 0 <= m < out.len() implies q.contains(#[trigger] out[m]) by {
        assert(has_pod(es, out[m].0)) by {
            assert(exists|k: int| 0 <= k < out.len() && (#[trigger] out[k]).0 == out[m].0);
        }
        let i = choose|i: int| 0 <= i < es.len() && (#[trigger] es[i]).0 == out[m].0;
        let k = choose|k: int| 0 <= k < q.len() && es[i].0 == q[k].0;
        assert(q[k].0 == out[m].0);
        assert(out[m] == q[k]);
    }
    assert(q.no_duplicates()) by {
        assert forall|i: int, j: int| 0 <= i < q.len() && 0 <= j < q.len() && i != j implies q[i] != q[j] by {
            if i < j {
                assert(q[i].0 != q[j].0);
            } else {
                assert(q[j].0 != q[i].0);
            }
        }
    }
    assert(out.no_duplicates()) by {
        assert forall|i: int, j: int| 0 <= i < out.len() && 0 <= j < out.len() && i != j implies out[i] != out[j] by {
            if i < j {
                assert(out[i].0 < out[j].0);
            } else {
                assert(out[j].0 < out[i].0);
            }
        }
    }
    q.lemma_multiset_has_no_duplicates();
    out.lemma_multiset_has_no_duplicates();
    assert(q.to_multiset() =~= out.to_multiset()) by {
        assert forall|x: (u64, Seq<(int, Seq<char>)>, Seq<(int, Seq<char>)>)|
            q.to_multiset().count(x) == out.to_multiset().count(x) by {
            broadcast use vstd::seq_lib::group_to_multiset_ensures;
            if q.contains(x) {
                let k = choose|k: int| 0 <= k < q.len() && q[k] == x;
                assert(out.contains(q[k]));
            }
            if out.contains(x) {
                let m = choose|m: int| 0 <= m < out.len() && out[m] == x;
                assert(q.contains(out[m]));
            }
        }
    }
    assert(out.len() == q.len()) by {
        broadcast use vstd::seq_lib::group_to_multiset_ensures;
        assert(q.len() == q.to_multiset().len());
        assert(out.len() == out.to_multiset().len());
    }
    if forall|a: int, b: int| 0 <= a < b < q.len() ==> (#[trigger] q[a]).0 < (#[trigger] q[b]).0 {
        lemma_same_ascending(q, out);
    }
}

/// Two sequences ascending in id that hold the same pods are equal.
proof fn lemma_same_ascending(
    q: Seq<(u64, Seq<(int, Seq<char>)>, Seq<(int, Seq<char>)>)>,
    out: Seq<(u64, Seq<(int, Seq<char>)>, Seq<(int, Seq<char>)>)>,
)
    requires
        forall|a: int, b: int| 0 <= a < b < q.len() ==> (#[trigger] q[a]).0 < (#[trigger] q[b]).0,
        forall|a: int, b: int| 0 <= a < b < out.len() ==> (#[trigger] out[a]).0 < (#[trigger] out[b]).0,
        forall|k: int| 0 <= k < q.len() ==> out.contains(#[trigger] q[k]),
        forall|m: int| 0 <= m < out.len() ==> q.contains(#[trigger] out[m]),
        out.len() == q.len(),
    ensures
        out == q,
{
    let qi = q.map_values(|x: (u64, Seq<(int, Seq<char>)>, Seq<(int, Seq<char>)>)| x.0);
    let oi = out.map_values(|x: (u64, Seq<(int, Seq<char>)>, Seq<(int, Seq<char>)>)| x.0);
    let leq = |x: u64, y: u64| x <= y;
    assert(vstd::relations::total_ordering(leq));
    assert(vstd::relations::sorted_by(qi, leq));
    assert(vstd::relations::sorted_by(oi, leq));
    assert(qi.no_duplicates()) by {
        assert forall|i: int, j: int| 0 <= i < qi.len() && 0 <= j < qi.len() && i != j implies qi[i] != qi[j] by {
            if i < j {
                assert(q[i].0 < q[j].0);
            } else {
                assert(q[j].0 < q[i].0);
            }
        }
    }
    assert(oi.no_duplicates()) by {
        assert forall|i: int, j: int| 0 <= i < oi.len() && 0 <= j < oi.len() && i != j implies oi[i] != oi[j] by {
            if i < j {
                assert(out[i].0 < out[j].0);
            } else {
                assert(out[j].0 < out[i].0);
            }
        }
    }
    qi.lemma_multiset_has_no_duplicates();
    oi.lemma_multiset_has_no_duplicates();
    assert(qi.to_multiset() =~= oi.to_multiset()) by {
        assert forall|x: u64| qi.to_multiset().count(x) == oi.to_multiset().count(x) by {
            broadcast use vstd::seq_lib::group_to_multiset_ensures;
            if qi.contains(x) {
                let k = choose|k: int| 0 <= k < qi.len() && qi[k] == x;
                assert(out.contains(q[k]));
                let m = choose|m: int| 0 <= m < out.len() && out[m] == q[k];
                assert(oi[m] == x);
            }
            if oi.contains(x) {
                let m = choose|m: int| 0 <= m < oi.len() && oi[m] == x;
                assert(q.contains(out[m]));
                let k = choose|k: int| 0 <= k < q.len() && q[k] == out[m];
                assert(qi[k] == x);
            }
        }
    }
    crate::sorting::lemma_sorted_unique(qi, oi, leq);
    assert forall|k: int| 0 <= k < q.len() implies out[k] == q[k] by {
        assert(qi[k] == oi[k]);
        assert(out.contains(q[k]));
        let m = choose|m: int| 0 <= m < out.len() && out[m] == q[k];
        assert(oi[m] == qi[k]);
        if m < k {
            assert(out[m].0 < out[k].0);
        } else if k < m {
            assert(out[k].0 < out[m].0);
        }
    }
    assert(out =~= q);
}

} // verus!
