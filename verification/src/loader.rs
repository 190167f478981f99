//! Loader: assembles the database from the texts of zero or more
//! "additional" files and at most one "main" file.
//!
//! Reading the files is the caller's business; the loader takes their texts.
//! Every additional text that parses contributes its entries, in the order
//! the texts were given; of the main candidates, the first text that parses
//! wins and later ones change nothing. Additional entries precede main
//! entries, so they are consulted first in matching. Finalizing fails only
//! when no text at all was loaded.

use vstd::prelude::*;
use vstd::string::StrSliceExecFns;
use crate::parser::{Entry, EntryModel, SyntaxError, database, database_entries};
use crate::drivedb::{DriveDB, compilable_entries};

verus! {

/// Why a load or the finalizing step failed.
#[derive(Debug, Clone, PartialEq)]
pub enum Error {
    /// The text was malformed; the position is best-effort.
    Syntax(SyntaxError),
    /// No text at all was loaded, so there is no database to finalize.
    NothingLoaded,
}

/// Mathematical model of a [`Loader`].
#[verifier::ext_equal]
pub struct LoaderModel {
    /// Entries of every additional text that parsed, concatenated in order.
    pub additional: Seq<EntryModel>,
    /// Entries of the first main text that parsed, if any did.
    pub main: Option<Seq<EntryModel>>,
    /// Whether any additional text parsed.
    pub additional_ok: bool,
}

/// Accumulates database texts and finalizes them into a [`DriveDB`].
pub struct Loader {
    additional: Vec<Entry>,
    main: Option<Vec<Entry>>,
    additional_ok: bool,
}

impl View for Loader {
    type V = LoaderModel;

    closed spec fn view(&self) -> LoaderModel {
        LoaderModel {
            additional: self.additional.deep_view(),
            main: match self.main {
                Some(m) => Some(m.deep_view()),
                None => None,
            },
            additional_ok: self.additional_ok,
        }
    }
}

impl Loader {
    /// A loader with nothing loaded.
    pub fn new() -> (r: Loader)
        ensures
            r@.additional == Seq::<EntryModel>::empty(),
            r@.main is None,
            !r@.additional_ok,
    {
        let r = Loader { additional: Vec::new(), main: None, additional_ok: false };
        assert(r@.additional =~= Seq::<EntryModel>::empty());
        r
    }

    /// Offer the text of a main database candidate. The first text that
    /// parses becomes the main entries; once one has, later texts change
    /// nothing. A malformed text is reported and changes nothing.
    pub fn load(&mut self, text: &str) -> (r: Result<(), Error>)
        ensures
            r is Ok <==> database_entries(text@) is Some,
            database_entries(text@) is None ==> *final(self) == *old(self),
            database_entries(text@) is Some ==> {
                &&& final(self)@.main == match old(self)@.main {
                    Some(m) => Some(m),
                    None => Some(database_entries(text@).unwrap()),
                }
                &&& final(self)@.additional == old(self)@.additional
                &&& final(self)@.additional_ok == old(self)@.additional_ok
            },
    {
        match database(text) {
            Ok(entries) => {
                if self.main.is_none() {
                    self.main = Some(entries);
                }
                Ok(())
            },
            Err(e) => Err(Error::Syntax(e)),
        }
    }

    /// Offer the text of an additional database file. If it parses, its
    /// entries are appended to the additional entries; a malformed text is
    /// reported and changes nothing.
    pub fn load_additional(&mut self, text: &str) -> (r: Result<(), Error>)
        ensures
            r is Ok <==> database_entries(text@) is Some,
            database_entries(text@) is None ==> *final(self) == *old(self),
            database_entries(text@) is Some ==> {
                &&& final(self)@.additional == old(self)@.additional + database_entries(
                    text@,
                ).unwrap()
                &&& final(self)@.main == old(self)@.main
                &&& final(self)@.additional_ok
            },
    {
        match database(text) {
            Ok(entries) => {
                let ghost before = self.additional.deep_view();
                let mut entries = entries;
                let ghost added = entries.deep_view();
                self.additional.append(&mut entries);
                assert(self.additional.deep_view() =~= before + added);
                self.additional_ok = true;
                Ok(())
            },
            Err(e) => Err(Error::Syntax(e)),
        }
    }

    /// All loaded entries in consultation order: additional entries first,
    /// then main entries.
    pub open spec fn spec_entries(m: LoaderModel) -> Seq<EntryModel> {
        m.additional + match m.main {
            Some(s) => s,
            None => Seq::<EntryModel>::empty(),
        }
    }

    /// Finalize into an immutable database, compiling every entry's
    /// patterns. Fails only when no text at all was loaded; a database from
    /// only additional texts, or only a main text, is still valid.
    pub fn db(self) -> (r: Result<DriveDB, Error>)
        ensures
            r is Ok <==> (self@.main is Some || self@.additional_ok),
            r is Ok ==> {
                &&& r.unwrap().wf()
                &&& r.unwrap()@ == compilable_entries(Loader::spec_entries(self@))
            },
    {
        let ghost m = self@;
        if self.main.is_none() && !self.additional_ok {
            return Err(Error::NothingLoaded);
        }
        let mut all = self.additional;
        match self.main {
            Some(mut main_entries) => {
                let ghost before = all.deep_view();
                let ghost added = main_entries.deep_view();
                all.append(&mut main_entries);
                assert(all.deep_view() =~= before + added);
            },
            None => {
                assert(all.deep_view() =~= Loader::spec_entries(m));
            },
        }
        assert(all.deep_view() == Loader::spec_entries(m));
        Ok(DriveDB::new(all))
    }
}

/// Whether a path names an additional file: it starts with `+`.
pub open spec fn is_additional_path(p: Seq<char>) -> bool {
    p.len() > 0 && p[0] == '+'
}

/// The additional paths among the options, in order, with the `+` marker
/// removed, from index `i` on.
pub open spec fn additional_paths(opts: Seq<Seq<char>>, i: int) -> Seq<Seq<char>>
    decreases opts.len() - i,
{
    if !(0 <= i < opts.len()) {
        Seq::<Seq<char>>::empty()
    } else {
        let rest = additional_paths(opts, i + 1);
        if is_additional_path(opts[i]) {
            seq![opts[i].subrange(1, opts[i].len() as int)] + rest
        } else {
            rest
        }
    }
}

/// The main paths among the options, in order, from index `i` on.
pub open spec fn main_paths(opts: Seq<Seq<char>>, i: int) -> Seq<Seq<char>>
    decreases opts.len() - i,
{
    if !(0 <= i < opts.len()) {
        Seq::<Seq<char>>::empty()
    } else {
        let rest = main_paths(opts, i + 1);
        if !is_additional_path(opts[i]) {
            seq![opts[i]] + rest
        } else {
            rest
        }
    }
}

/// The main database paths tried when the caller names none.
pub open spec fn default_main_paths() -> Seq<Seq<char>> {
    seq![
        "/var/lib/smartmontools/drivedb/drivedb.h"@,
        "/usr/local/share/smartmontools/drivedb.h"@,
        "/usr/share/smartmontools/drivedb.h"@,
    ]
}

/// The additional database paths tried when the caller names none at all.
pub open spec fn default_additional_paths() -> Seq<Seq<char>> {
    seq!["/etc/smart_drivedb.h"@]
}

/// Classify caller-supplied database paths: a leading `+` marks a path as
/// additional, anything else as a main candidate. When no main path is
/// given, the conventional system paths are used, and when additionally no
/// additional path is given, the conventional additional path is used with
/// its warnings silenced. Returns the additional paths (markers removed),
/// the main paths, and whether warnings about unreadable additional files
/// should be shown.
pub fn classify_paths(options: &Vec<String>) -> (r: (Vec<String>, Vec<String>, bool))
    ensures
        ({
            let opts = options.deep_view();
            let adds = additional_paths(opts, 0);
            let mains = main_paths(opts, 0);
            if mains.len() == 0 {
                &&& r.1.deep_view() == default_main_paths()
                &&& if adds.len() == 0 {
                    r.0.deep_view() == default_additional_paths() && r.2 == false
                } else {
                    r.0.deep_view() == adds && r.2 == true
                }
            } else {
                &&& r.0.deep_view() == adds
                &&& r.1.deep_view() == mains
                &&& r.2 == true
            }
        }),
{
    let ghost opts = options.deep_view();
    let mut adds: Vec<String> = Vec::new();
    let mut mains: Vec<String> = Vec::new();
    let mut i: usize = 0;
    assert(additional_paths(opts, 0) =~= adds.deep_view() + additional_paths(opts, 0));
    assert(main_paths(opts, 0) =~= mains.deep_view() + main_paths(opts, 0));
    while i < options.len()
        invariant
            i <= options.len(),
            opts == options.deep_view(),
            additional_paths(opts, 0) == adds.deep_view() + additional_paths(opts, i as int),
            main_paths(opts, 0) == mains.deep_view() + main_paths(opts, i as int),
        decreases options.len() - i,
    {
        let p = options[i].as_str();
        let n = p.unicode_len();
        assert(p@ == opts[i as int]);
        if n > 0 && p.get_char(0) == '+' {
            let trimmed = p.substring_char(1, n).to_owned();
            let ghost before = adds.deep_view();
            adds.push(trimmed);
            assert(adds.deep_view() =~~= before.push(
                opts[i as int].subrange(1, opts[i as int].len() as int),
            ));
            assert(before + (seq![opts[i as int].subrange(1, opts[i as int].len() as int)]
                + additional_paths(opts, i + 1 as int)) =~= adds.deep_view() + additional_paths(
                opts,
                i + 1 as int,
            ));
        } else {
            let kept = p.to_owned();
            let ghost before = mains.deep_view();
            mains.push(kept);
            assert(mains.deep_view() =~~= before.push(opts[i as int]));
            assert(before + (seq![opts[i as int]] + main_paths(opts, i + 1 as int))
                =~= mains.deep_view() + main_paths(opts, i + 1 as int));
        }
        i = i + 1;
    }
    assert(additional_paths(opts, options.len() as int) =~= Seq::<Seq<char>>::empty());
    assert(main_paths(opts, options.len() as int) =~= Seq::<Seq<char>>::empty());
    assert(adds.deep_view() =~= additional_paths(opts, 0));
    assert(mains.deep_view() =~= main_paths(opts, 0));

    if mains.len() == 0 {
        let mut dmains: Vec<String> = Vec::new();
        dmains.push("/var/lib/smartmontools/drivedb/drivedb.h".to_owned());
        dmains.push("/usr/local/share/smartmontools/drivedb.h".to_owned());
        dmains.push("/usr/share/smartmontools/drivedb.h".to_owned());
        assert(dmains.deep_view() =~~= default_main_paths());
        if adds.len() == 0 {
            let mut dadds: Vec<String> = Vec::new();
            dadds.push("/etc/smart_drivedb.h".to_owned());
            assert(dadds.deep_view() =~~= default_additional_paths());
            (dadds, dmains, false)
        } else {
            (adds, dmains, true)
        }
    } else {
        (adds, mains, true)
    }
}

} // verus!
