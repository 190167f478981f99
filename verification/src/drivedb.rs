//! Matching and rendering engine.
//!
//! A [`DriveDB`] holds the database entries with their model and firmware
//! patterns compiled; entries whose patterns do not compile are skipped.
//! [`DriveDB::render_meta`] matches a device's identification data against
//! every entry, resolves the family and warning strings (the last matching
//! entry with a non-empty field wins), and collects the attribute
//! descriptions of every matching entry, in database order, followed by the
//! user-supplied ones. [`DriveMeta::render_attribute`] then resolves the
//! final description for one attribute number: the last description with
//! that exact id, else the last wildcard one, dropped when its drive-type
//! filter does not fit the device.

use vstd::prelude::*;
pub use crate::loader::Loader;
pub use crate::loader::Error;
pub use crate::vendor_attribute;
use crate::parser::{Entry, EntryModel};
use crate::vendor_attribute::{Attribute, AttributeModel, Type, parse_model};
use crate::presets::{split_model, DirectiveModel};

verus! {

/// `regex::Regex`, declared as an opaque compiled pattern.
#[verifier::external_type_specification]
#[verifier::external_body]
pub struct ExRegex(regex::Regex);

/// Whether `regex::Regex::new` accepts this pattern once anchored to match
/// whole strings.
pub uninterp spec fn regex_valid(pattern: Seq<char>) -> bool;

/// Whether the whole of `text` matches `pattern`, as decided by the regex
/// engine; a function of the pattern and the text alone.
pub uninterp spec fn regex_whole_match(pattern: Seq<char>, text: Seq<char>) -> bool;

/// A compiled pattern together with the pattern text it was compiled from.
/// Only [`compile_whole`] constructs values of this type, which keeps the
/// two fields in step.
struct CompiledRegex {
    re: regex::Regex,
    pattern: String,
}

/// Relies on `regex::Regex::new`: it accepts or rejects a pattern as a
/// function of the pattern text alone. The pattern is anchored on both sides
/// so that later matches span whole strings.
#[verifier::external_body]
fn compile_whole(pattern: &str) -> (r: Option<CompiledRegex>)
    ensures
        r is Some <==> regex_valid(pattern@),
        r is Some ==> r.unwrap().pattern@ == pattern@,
{
    match regex::Regex::new(&format!("^(?:{})$", pattern)) {
        Ok(re) => Some(CompiledRegex { re, pattern: pattern.to_owned() }),
        Err(_) => None,
    }
}

/// Relies on `regex::Regex::is_match`: whether a text matches is a function
/// of the compiled pattern and the text alone.
#[verifier::external_body]
fn whole_match(re: &CompiledRegex, text: &str) -> (r: bool)
    ensures
        r == regex_whole_match(re.pattern@, text@),
{
    re.re.is_match(text)
}

/// Whether both patterns of an entry compile (an empty firmware pattern is
/// never compiled: it matches any firmware).
pub open spec fn compilable(e: EntryModel) -> bool {
    regex_valid(e.model) && (e.firmware.len() == 0 || regex_valid(e.firmware))
}

/// The entries of a sequence whose patterns compile, in order.
pub open spec fn compilable_entries(es: Seq<EntryModel>) -> Seq<EntryModel> {
    es.filter(|e: EntryModel| compilable(e))
}

proof fn lemma_compilable_push(es: Seq<EntryModel>, e: EntryModel)
    ensures
        compilable_entries(es.push(e)) == if compilable(e) {
            compilable_entries(es).push(e)
        } else {
            compilable_entries(es)
        },
{
    reveal_with_fuel(Seq::filter, 2);
    assert(es.push(e).drop_last() =~= es);
    assert(es.push(e).last() == e);
}

/// Whether an entry applies to a device: its model pattern matches the whole
/// model string, and its firmware pattern is empty or matches the whole
/// firmware string.
pub open spec fn entry_matches(e: EntryModel, model: Seq<char>, firmware: Seq<char>) -> bool {
    regex_whole_match(e.model, model) && (e.firmware.len() == 0 || regex_whole_match(
        e.firmware,
        firmware,
    ))
}

struct CompiledEntry {
    entry: Entry,
    model_re: CompiledRegex,
    firmware_re: Option<CompiledRegex>,
}

/// The drive database, ready for matching.
pub struct DriveDB {
    entries: Vec<CompiledEntry>,
}

impl View for DriveDB {
    type V = Seq<EntryModel>;

    closed spec fn view(&self) -> Seq<EntryModel> {
        self.entries@.map(|i: int, ce: CompiledEntry| ce.entry@)
    }
}

impl DriveDB {
    /// Each stored compiled pattern was compiled from the entry field beside
    /// it.
    pub closed spec fn wf(&self) -> bool {
        forall|i: int|
            0 <= i < self.entries@.len() ==> {
                let ce = #[trigger] self.entries@[i];
                &&& ce.model_re.pattern@ == ce.entry@.model
                &&& match ce.firmware_re {
                    None => ce.entry@.firmware.len() == 0,
                    Some(r) => r.pattern@ == ce.entry@.firmware && ce.entry@.firmware.len() > 0,
                }
            }
    }

    /// Compile the patterns of every entry, keeping exactly the entries
    /// whose patterns compile, in order.
    pub fn new(entries: Vec<Entry>) -> (db: DriveDB)
        ensures
            db.wf(),
            db@ == compilable_entries(entries.deep_view()),
    {
        let ghost all = entries.deep_view();
        let mut kept: Vec<CompiledEntry> = Vec::new();
        let mut i: usize = 0;
        proof {
            reveal_with_fuel(Seq::filter, 1);
            assert(compilable_entries(all.subrange(0, 0)) =~= Seq::<EntryModel>::empty());
            assert(kept@.map(|k: int, ce: CompiledEntry| ce.entry@) =~= Seq::<
                EntryModel,
            >::empty());
        }
        while i < entries.len()
            invariant
                i <= entries.len(),
                all == entries.deep_view(),
                kept@.map(|k: int, ce: CompiledEntry| ce.entry@) == compilable_entries(
                    all.subrange(0, i as int),
                ),
                forall|k: int|
                    0 <= k < kept@.len() ==> {
                        let ce = #[trigger] kept@[k];
                        &&& ce.model_re.pattern@ == ce.entry@.model
                        &&& match ce.firmware_re {
                            None => ce.entry@.firmware.len() == 0,
                            Some(r) => r.pattern@ == ce.entry@.firmware && ce.entry@.firmware.len()
                                > 0,
                        }
                    },
            decreases entries.len() - i,
        {
            let ghost prefix = all.subrange(0, i as int);
            proof {
                assert(all.subrange(0, i + 1 as int) =~= prefix.push(all[i as int]));
                lemma_compilable_push(prefix, all[i as int]);
            }
            let e = entries[i].clone();
            let model_re = compile_whole(e.model.as_str());
            match model_re {
                None => {},
                Some(mre) => {
                    if e.firmware.as_str().is_empty() {
                        let ghost before = kept@.map(|k: int, ce: CompiledEntry| ce.entry@);
                        kept.push(CompiledEntry { entry: e, model_re: mre, firmware_re: None });
                        assert(kept@.map(|k: int, ce: CompiledEntry| ce.entry@) =~= before.push(
                            all[i as int],
                        ));
                    } else {
                        match compile_whole(e.firmware.as_str()) {
                            None => {},
                            Some(fre) => {
                                let ghost before = kept@.map(
                                    |k: int, ce: CompiledEntry| ce.entry@,
                                );
                                kept.push(
                                    CompiledEntry {
                                        entry: e,
                                        model_re: mre,
                                        firmware_re: Some(fre),
                                    },
                                );
                                assert(kept@.map(|k: int, ce: CompiledEntry| ce.entry@)
                                    =~= before.push(all[i as int]));
                            },
                        }
                    }
                },
            }
            i = i + 1;
        }
        assert(all.subrange(0, entries.len() as int) =~= all);
        DriveDB { entries: kept }
    }

    fn entry_matches_at(&self, i: usize, model: &str, firmware: &str) -> (r: bool)
        requires
            self.wf(),
            i < self@.len(),
        ensures
            r == entry_matches(self@[i as int], model@, firmware@),
    {
        let ce = &self.entries[i];
        if !whole_match(&ce.model_re, model) {
            return false;
        }
        match &ce.firmware_re {
            None => true,
            Some(re) => whole_match(re, firmware),
        }
    }
}

/// Rotation rate reported by a device's identification data.
#[derive(Debug, Clone, Copy, PartialEq, Eq, Structural)]
pub enum RPM {
    /// Nothing reported.
    Unknown,
    /// A solid-state device.
    NonRotating,
    /// Rotating media, with its rate in revolutions per minute.
    RPM(u16),
}

/// The transport-agnostic identification data of one device: all the engine
/// reads of a device.
#[derive(Debug, Clone, PartialEq)]
pub struct DeviceId {
    /// The full model string.
    pub model: String,
    /// The full firmware revision string.
    pub firmware: String,
    /// The reported rotation rate, deciding HDD against SSD.
    pub rpm: RPM,
}

/// The device class a rotation rate implies, if any.
pub open spec fn device_class(rpm: RPM) -> Option<Type> {
    match rpm {
        RPM::Unknown => None,
        RPM::NonRotating => Some(Type::SSD),
        RPM::RPM(_) => Some(Type::HDD),
    }
}

/// Whether a description's drive-type filter accepts a device of the given
/// class: no filter accepts anything, a filter only its own class.
pub open spec fn matches_class(dt: Option<Type>, class: Option<Type>) -> bool {
    match dt {
        None => true,
        Some(t) => class == Some(t),
    }
}

/// The family of the last entry that matches the device and has a non-empty
/// family, if any.
pub open spec fn last_family(
    es: Seq<EntryModel>,
    model: Seq<char>,
    firmware: Seq<char>,
) -> Option<Seq<char>>
    decreases es.len(),
{
    if es.len() == 0 {
        None
    } else if entry_matches(es.last(), model, firmware) && es.last().family.len() > 0 {
        Some(es.last().family)
    } else {
        last_family(es.drop_last(), model, firmware)
    }
}

/// The warning of the last entry that matches the device and has a non-empty
/// warning, if any.
pub open spec fn last_warning(
    es: Seq<EntryModel>,
    model: Seq<char>,
    firmware: Seq<char>,
) -> Option<Seq<char>>
    decreases es.len(),
{
    if es.len() == 0 {
        None
    } else if entry_matches(es.last(), model, firmware) && es.last().warning.len() > 0 {
        Some(es.last().warning)
    } else {
        last_warning(es.drop_last(), model, firmware)
    }
}

/// The attribute descriptions named by a directive sequence, from index `i`
/// on: each `-v` argument that parses, in order; malformed ones are skipped.
pub open spec fn attrs_of_directives(ds: Seq<DirectiveModel>, i: int) -> Seq<AttributeModel>
    decreases ds.len() - i,
{
    if !(0 <= i < ds.len()) {
        Seq::<AttributeModel>::empty()
    } else {
        let rest = attrs_of_directives(ds, i + 1);
        match ds[i] {
            DirectiveModel::AttributeOverride(desc) => match parse_model(desc) {
                Some(a) => seq![a] + rest,
                None => rest,
            },
            DirectiveModel::FirmwareFix(_) => rest,
        }
    }
}

/// The attribute descriptions contributed by the entries from index `i` on:
/// for each entry that matches the device, the parsed `-v` arguments of its
/// presets string, in database order.
pub open spec fn db_attrs(
    es: Seq<EntryModel>,
    model: Seq<char>,
    firmware: Seq<char>,
    i: int,
) -> Seq<AttributeModel>
    decreases es.len() - i,
{
    if !(0 <= i < es.len()) {
        Seq::<AttributeModel>::empty()
    } else {
        let rest = db_attrs(es, model, firmware, i + 1);
        if entry_matches(es[i], model, firmware) {
            attrs_of_directives(split_model(es[i].presets), 0) + rest
        } else {
            rest
        }
    }
}

/// The last description in the merged list with the wanted id (an exact
/// number, or `None` for the wildcard), if any.
pub open spec fn resolve_by(attrs: Seq<AttributeModel>, want: Option<u8>) -> Option<
    AttributeModel,
>
    decreases attrs.len(),
{
    if attrs.len() == 0 {
        None
    } else if attrs.last().id == want {
        Some(attrs.last())
    } else {
        resolve_by(attrs.drop_last(), want)
    }
}

/// The final description for attribute number `n`: the last one with that
/// exact id, else the last wildcard one, and only if its drive-type filter
/// accepts the device's class.
pub open spec fn render_attribute_model(
    attrs: Seq<AttributeModel>,
    n: u8,
    class: Option<Type>,
) -> Option<AttributeModel> {
    let found = match resolve_by(attrs, Some(n)) {
        Some(a) => Some(a),
        None => resolve_by(attrs, None),
    };
    match found {
        Some(a) => if matches_class(a.drivetype, class) {
            Some(a)
        } else {
            None
        },
        None => None,
    }
}

/// Mathematical model of a [`DriveMeta`].
#[verifier::ext_equal]
pub struct DriveMetaModel {
    pub family: Option<Seq<char>>,
    pub warning: Option<Seq<char>>,
    pub attributes: Seq<AttributeModel>,
    pub class: Option<Type>,
}

/// Everything the database knows about one device: the resolved family and
/// warning, and the merged attribute descriptions, database-derived first
/// and user-supplied last.
#[derive(Debug)]
pub struct DriveMeta {
    /// Model family of the device according to the database, if any entry
    /// with one matched.
    pub family: Option<String>,
    /// Warning that applies to this device, if any matching entry carries
    /// one.
    pub warning: Option<String>,
    attributes: Vec<Attribute>,
    class: Option<Type>,
}

impl View for DriveMeta {
    type V = DriveMetaModel;

    closed spec fn view(&self) -> DriveMetaModel {
        DriveMetaModel {
            family: match self.family {
                Some(f) => Some(f@),
                None => None,
            },
            warning: match self.warning {
                Some(w) => Some(w@),
                None => None,
            },
            attributes: self.attributes.deep_view(),
            class: self.class,
        }
    }
}

fn find_last_with_id(attrs: &Vec<Attribute>, want: Option<u8>) -> (r: Option<usize>)
    ensures
        match r {
            Some(k) => k < attrs.len() && resolve_by(attrs.deep_view(), want) == Some(
                attrs.deep_view()[k as int],
            ),
            None => resolve_by(attrs.deep_view(), want) is None,
        },
{
    let ghost all = attrs.deep_view();
    let mut i: usize = attrs.len();
    assert(all.subrange(0, attrs.len() as int) =~= all);
    while i > 0
        invariant
            i <= attrs.len(),
            all == attrs.deep_view(),
            resolve_by(all, want) == resolve_by(all.subrange(0, i as int), want),
        decreases i,
    {
        let ghost prefix = all.subrange(0, i as int);
        proof {
            assert(prefix.drop_last() =~= all.subrange(0, i - 1 as int));
            assert(prefix.last() == all[i - 1 as int]);
        }
        let matches_want = match (&attrs[i - 1].id, &want) {
            (Some(a), Some(w)) => *a == *w,
            (None, None) => true,
            _ => false,
        };
        if matches_want {
            return Some(i - 1);
        }
        i = i - 1;
    }
    assert(all.subrange(0, 0) =~= Seq::<AttributeModel>::empty());
    None
}

impl DriveMeta {
    /// Resolve the final decoding recipe for attribute number `id`: the
    /// last-merged description with that exact id, else the last wildcard
    /// description; absent entirely when none exists or when the resolved
    /// description's drive-type filter does not fit this device.
    pub fn render_attribute(&self, id: u8) -> (r: Option<Attribute>)
        ensures
            match r {
                Some(a) => render_attribute_model(self@.attributes, id, self@.class) == Some(a@),
                None => render_attribute_model(self@.attributes, id, self@.class) is None,
            },
    {
        let chosen = match find_last_with_id(&self.attributes, Some(id)) {
            Some(k) => Some(k),
            None => find_last_with_id(&self.attributes, None),
        };
        match chosen {
            None => None,
            Some(k) => {
                let a = &self.attributes[k];
                let ok = match (&a.drivetype, &self.class) {
                    (None, _) => true,
                    (Some(t), Some(c)) => *t == *c,
                    (Some(_), None) => false,
                };
                if ok {
                    Some(a.clone())
                } else {
                    None
                }
            },
        }
    }
}

impl DriveDB {
    /// Match the device against every entry and render its metadata: the
    /// family and warning of the last matching entries that carry them, and
    /// the attribute descriptions of every matching entry in database order,
    /// followed by the user-supplied ones, which therefore take precedence.
    pub fn render_meta(&self, id: &DeviceId, user_attributes: &Vec<Attribute>) -> (m: DriveMeta)
        requires
            self.wf(),
        ensures
            m@.family == last_family(self@, id.model@, id.firmware@),
            m@.warning == last_warning(self@, id.model@, id.firmware@),
            m@.attributes == db_attrs(self@, id.model@, id.firmware@, 0)
                + user_attributes.deep_view(),
            m@.class == device_class(id.rpm),
    {
        let ghost es = self@;
        let ghost model = id.model@;
        let ghost firmware = id.firmware@;
        let n = self.entries.len();
        assert(es.len() == n);

        let mut family: Option<String> = None;
        let mut warning: Option<String> = None;
        let mut i: usize = 0;
        assert(es.subrange(0, 0) =~= Seq::<EntryModel>::empty());
        while i < n
            invariant
                i <= n,
                n == self.entries.len(),
                es == self@,
                model == id.model@,
                firmware == id.firmware@,
                self.wf(),
                match family {
                    Some(f) => last_family(es.subrange(0, i as int), model, firmware) == Some(f@),
                    None => last_family(es.subrange(0, i as int), model, firmware) is None,
                },
                match warning {
                    Some(w) => last_warning(es.subrange(0, i as int), model, firmware) == Some(
                        w@,
                    ),
                    None => last_warning(es.subrange(0, i as int), model, firmware) is None,
                },
            decreases n - i,
        {
            proof {
                assert(es.subrange(0, i + 1 as int).drop_last() =~= es.subrange(0, i as int));
                assert(es.subrange(0, i + 1 as int).last() == es[i as int]);
            }
            if self.entry_matches_at(i, id.model.as_str(), id.firmware.as_str()) {
                let e = &self.entries[i].entry;
                assert(e@ == es[i as int]);
                if !e.family.as_str().is_empty() {
                    family = Some(e.family.clone());
                }
                if !e.warning.as_str().is_empty() {
                    warning = Some(e.warning.clone());
                }
            }
            i = i + 1;
        }
        assert(es.subrange(0, n as int) =~= es);

        let mut attrs: Vec<Attribute> = Vec::new();
        let ghost full = db_attrs(es, model, firmware, 0);
        let mut i: usize = 0;
        assert(full =~= attrs.deep_view() + db_attrs(es, model, firmware, 0));
        while i < n
            invariant
                i <= n,
                n == self.entries.len(),
                es == self@,
                model == id.model@,
                firmware == id.firmware@,
                self.wf(),
                full == db_attrs(es, model, firmware, 0),
                full == attrs.deep_view() + db_attrs(es, model, firmware, i as int),
            decreases n - i,
        {
            if self.entry_matches_at(i, id.model.as_str(), id.firmware.as_str()) {
                let e = &self.entries[i].entry;
                assert(e@ == es[i as int]);
                let directives = crate::presets::split(e.presets.as_str());
                let ghost ds = directives.deep_view();
                assert(ds == split_model(es[i as int].presets));
                let ghost entry_attrs = attrs_of_directives(ds, 0);
                let mut j: usize = 0;
                let ghost rest = db_attrs(es, model, firmware, i + 1 as int);
                assert(db_attrs(es, model, firmware, i as int) == entry_attrs + rest);
                assert(full == attrs.deep_view() + (attrs_of_directives(ds, 0) + rest));
                while j < directives.len()
                    invariant
                        j <= directives.len(),
                        ds == directives.deep_view(),
                        full == attrs.deep_view() + (attrs_of_directives(ds, j as int) + rest),
                    decreases directives.len() - j,
                {
                    match &directives[j] {
                        crate::presets::Directive::AttributeOverride(desc) => {
                            match crate::vendor_attribute::parse(desc.as_str()) {
                                Ok(a) => {
                                    let ghost before = attrs.deep_view();
                                    let ghost av = a@;
                                    attrs.push(a);
                                    assert(attrs.deep_view() =~= before.push(av));
                                    assert(before + ((seq![av] + attrs_of_directives(
                                        ds,
                                        j + 1 as int,
                                    )) + rest) =~= attrs.deep_view() + (attrs_of_directives(
                                        ds,
                                        j + 1 as int,
                                    ) + rest));
                                },
                                Err(_) => {},
                            }
                        },
                        crate::presets::Directive::FirmwareFix(_) => {},
                    }
                    j = j + 1;
                }
                assert(attrs_of_directives(ds, directives.len() as int) =~= Seq::<
                    AttributeModel,
                >::empty());
                assert(attrs_of_directives(ds, directives.len() as int) + rest =~= rest);
            }
            i = i + 1;
        }
        assert(db_attrs(es, model, firmware, n as int) =~= Seq::<AttributeModel>::empty());
        assert(full =~= attrs.deep_view());

        let mut j: usize = 0;
        let ghost user = user_attributes.deep_view();
        assert(user.subrange(0, 0) =~= Seq::<AttributeModel>::empty());
        assert(attrs.deep_view() =~= full + user.subrange(0, 0));
        while j < user_attributes.len()
            invariant
                j <= user_attributes.len(),
                user == user_attributes.deep_view(),
                attrs.deep_view() == full + user.subrange(0, j as int),
            decreases user_attributes.len() - j,
        {
            let ghost before = attrs.deep_view();
            attrs.push(user_attributes[j].clone());
            assert(attrs.deep_view() =~= before.push(user[j as int]));
            assert(full + user.subrange(0, j + 1 as int) =~= (full + user.subrange(
                0,
                j as int,
            )).push(user[j as int]));
            j = j + 1;
        }
        assert(user.subrange(0, user_attributes.len() as int) =~= user);

        let class: Option<Type> = match id.rpm {
            RPM::Unknown => None,
            RPM::NonRotating => Some(Type::SSD),
            RPM::RPM(_) => Some(Type::HDD),
        };
        let m = DriveMeta { family, warning, attributes: attrs, class };
        m
    }
}

/// Every entry kept by pattern compilation already stood in the given
/// sequence.
proof fn lemma_compilable_entries_subset(es: Seq<EntryModel>, i: int)
    requires
        0 <= i < compilable_entries(es).len(),
    ensures
        es.contains(compilable_entries(es)[i]),
    decreases es.len(),
{
    reveal_with_fuel(Seq::filter, 1);
    if es.len() > 0 {
        let prefix = es.drop_last();
        let last = es.last();
        assert(prefix.push(last) =~= es);
        lemma_compilable_push(prefix, last);
        let kept = compilable_entries(prefix);
        if compilable(last) && i == kept.len() {
            assert(es[es.len() - 1] == compilable_entries(es)[i]);
        } else {
            lemma_compilable_entries_subset(prefix, i);
            let w = choose|k: int|
                0 <= k < prefix.len() && prefix[k] == compilable_entries(prefix)[i];
            assert(es[w] == compilable_entries(es)[i]);
        }
    }
}

/// Law: a database built from entries none of which is reserved (its family
/// starting with `$`) holds no reserved entry either, so a reserved entry
/// never takes part in matching.
pub proof fn lemma_no_reserved_in_db(es: Seq<EntryModel>, i: int)
    requires
        forall|j: int| 0 <= j < es.len() ==> !crate::parser::is_reserved(#[trigger] es[j]),
        0 <= i < compilable_entries(es).len(),
    ensures
        !crate::parser::is_reserved(compilable_entries(es)[i]),
{
    lemma_compilable_entries_subset(es, i);
    let w = choose|k: int| 0 <= k < es.len() && es[k] == compilable_entries(es)[i];
    assert(!crate::parser::is_reserved(es[w]));
}

/// Law: the rendered family is the family of the last entry that matches
/// the device and carries one. In particular, of two matching entries with
/// the same patterns and different families, the later one decides.
pub proof fn lemma_later_family_wins(
    es: Seq<EntryModel>,
    model: Seq<char>,
    firmware: Seq<char>,
    j: int,
)
    requires
        0 <= j < es.len(),
        entry_matches(es[j], model, firmware),
        es[j].family.len() > 0,
        forall|k: int|
            j < k < es.len() ==> !(entry_matches(#[trigger] es[k], model, firmware)
                && es[k].family.len() > 0),
    ensures
        last_family(es, model, firmware) == Some(es[j].family),
    decreases es.len(),
{
    if j == es.len() - 1 {
        assert(es.last() == es[j]);
    } else {
        assert(!(entry_matches(es[es.len() - 1], model, firmware) && es[es.len()
            - 1].family.len() > 0));
        assert(es.drop_last()[j] == es[j]);
        lemma_later_family_wins(es.drop_last(), model, firmware, j);
    }
}

/// Law: when the user supplies a description for an attribute id, the
/// description resolved for that id is the last user-supplied one with that
/// id — never a database-derived one, whatever the database contributed.
pub proof fn lemma_user_override_wins(
    db: Seq<AttributeModel>,
    user: Seq<AttributeModel>,
    n: u8,
    j: int,
)
    requires
        0 <= j < user.len(),
        user[j].id == Some(n),
        forall|k: int| j < k < user.len() ==> (#[trigger] user[k].id) != Some(n),
    ensures
        resolve_by(db + user, Some(n)) == Some(user[j]),
    decreases user.len(),
{
    let all = db + user;
    if j == user.len() - 1 {
        assert(all.last() == user[j]);
    } else {
        assert(all.last() == user[user.len() - 1]);
        assert(all.drop_last() =~= db + user.drop_last());
        assert(user.drop_last()[j] == user[j]);
        lemma_user_override_wins(db, user.drop_last(), n, j);
    }
}

/// Law: rendering attribute `n` from descriptions merged as the database
/// part followed by the user part yields the last user-supplied description
/// with id `n` whenever the user gave one, whatever the database
/// contributed; only that description's own drive-type filter can still
/// drop it.
pub proof fn lemma_user_override_renders(
    db: Seq<AttributeModel>,
    user: Seq<AttributeModel>,
    n: u8,
    j: int,
    class: Option<Type>,
)
    requires
        0 <= j < user.len(),
        user[j].id == Some(n),
        forall|k: int| j < k < user.len() ==> (#[trigger] user[k].id) != Some(n),
    ensures
        render_attribute_model(db + user, n, class) == if matches_class(
            user[j].drivetype,
            class,
        ) {
            Some(user[j])
        } else {
            None::<AttributeModel>
        },
{
    lemma_user_override_wins(db, user, n, j);
}

} // verus!
