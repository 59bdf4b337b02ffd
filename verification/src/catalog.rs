//! The catalog of chip names, taken from the names of the chip files,
//! and the queries over it: listing by family, and the search for chips
//! that have a peripheral.

use vstd::prelude::*;
use vstd::string::*;
use crate::lookup::{find_peripheral, named_in_cores};
use crate::model::ChipData;
use crate::names::{chars_of, query_key, starts_with, uppercase_of};
use crate::order::{ascending_texts, lemma_sort_texts, sort_texts, sorted_texts};
use crate::text::{dec_digits, join, join_strings, push_dec, views};

verus! {

// ── Chip files ──

/// The name a file gives a chip: the file name without its `.json` suffix;
/// nothing for a file without that suffix.
pub open spec fn json_stem(file: Seq<char>) -> Option<Seq<char>> {
    if file.len() >= 5 && file.subrange(file.len() - 5, file.len() as int) == seq!['.', 'j', 's', 'o', 'n'] {
        Some(file.subrange(0, file.len() - 5))
    } else {
        None
    }
}

/// The chip names that a list of file names gives, in file order.
pub open spec fn json_stems(files: Seq<Seq<char>>) -> Seq<Seq<char>>
    decreases files.len(),
{
    if files.len() == 0 {
        Seq::empty()
    } else {
        match json_stem(files.last()) {
            Some(stem) => json_stems(files.drop_last()).push(stem),
            None => json_stems(files.drop_last()),
        }
    }
}

/// The chip name that a file name gives, where it ends in `.json`.
pub fn strip_json_suffix(file: &str) -> (r: Option<String>)
    ensures
        match r {
            Some(s) => json_stem(file@) == Some(s@),
            None => json_stem(file@) is None,
        },
{
    let cs = chars_of(file);
    let n = cs.len();
    if n >= 5 && cs[n - 5] == '.' && cs[n - 4] == 'j' && cs[n - 3] == 's' && cs[n - 2] == 'o'
        && cs[n - 1] == 'n' {
        assert(file@.subrange(n - 5, n as int) =~= seq!['.', 'j', 's', 'o', 'n']);
        let stem = file.substring_char(0, n - 5);
        Some(String::from_str(stem))
    } else {
        proof {
            if n >= 5 {
                let t = file@.subrange(n - 5, n as int);
                if t == seq!['.', 'j', 's', 'o', 'n'] {
                    assert(t[0] == cs@[n - 5]);
                    assert(t[1] == cs@[n - 4]);
                    assert(t[2] == cs@[n - 3]);
                    assert(t[3] == cs@[n - 2]);
                    assert(t[4] == cs@[n - 1]);
                }
            }
        }
        None
    }
}

/// The file name of a chip: its name followed by `.json`.
pub fn chip_file_name(name: &str) -> (r: String)
    ensures
        r@ == name@ + seq!['.', 'j', 's', 'o', 'n'],
{
    let mut r = String::from_str(name);
    r.push('.');
    r.push('j');
    r.push('s');
    r.push('o');
    r.push('n');
    assert(r@ =~= name@ + seq!['.', 'j', 's', 'o', 'n']);
    r
}

/// The answer when a chip's file cannot be read.
pub fn chip_not_found(name: &str) -> (r: String)
    ensures
        r@ == "Chip '"@ + name@ + "' not found. Use list_chips to see available chips."@,
{
    let mut r = String::new();
    r.append("Chip '");
    r.append(name);
    r.append("' not found. Use list_chips to see available chips.");
    assert(r@ =~= "Chip '"@ + name@ + "' not found. Use list_chips to see available chips."@);
    r
}

/// The answer when a chip's file is not a valid chip description; `detail` says why.
pub fn chip_parse_failure(detail: &str) -> (r: String)
    ensures
        r@ == "Failed to parse chip data: "@ + detail@,
{
    let mut r = String::new();
    r.append("Failed to parse chip data: ");
    r.append(detail);
    r
}

// ── The catalog ──

/// The names of the chips for which there is data, in ascending order.
pub struct ChipIndex {
    names: Vec<String>,
}

impl ChipIndex {
    /// The names are in ascending order.
    #[verifier::type_invariant]
    spec fn names_ascending(&self) -> bool {
        ascending_texts(views(self.names@))
    }

}

impl View for ChipIndex {
    type V = Seq<Seq<char>>;

    closed spec fn view(&self) -> Seq<Seq<char>> {
        views(self.names@)
    }
}

/// The names of `names` that begin with `prefix`, or all of them where
/// there is no prefix, in order.
pub open spec fn with_prefix(names: Seq<Seq<char>>, prefix: Option<Seq<char>>) -> Seq<Seq<char>>
    decreases names.len(),
{
    if names.len() == 0 {
        Seq::empty()
    } else {
        let rest = with_prefix(names.drop_last(), prefix);
        match prefix {
            Some(p) => if p.is_prefix_of(names.last()) {
                rest.push(names.last())
            } else {
                rest
            },
            None => rest.push(names.last()),
        }
    }
}

/// The family filter as it is applied: upper-cased.
pub open spec fn filter_key(filter: Option<Seq<char>>) -> Option<Seq<char>> {
    match filter {
        Some(f) => Some(uppercase_of(f)),
        None => None,
    }
}

/// The list of chips whose names begin with the filter (upper-cased).
pub open spec fn chip_list_text(names: Seq<Seq<char>>, filter: Option<Seq<char>>) -> Seq<char> {
    chip_list_key_text(names, filter_key(filter))
}

/// The list of chips whose names begin with `key`, or of all chips.
pub open spec fn chip_list_key_text(names: Seq<Seq<char>>, key: Option<Seq<char>>) -> Seq<char> {
    let chips = with_prefix(names, key);
    if chips.len() == 0 {
        "No chips found matching the filter."@
    } else {
        dec_digits(chips.len()) + " chips found:\n"@ + join(chips, "\n"@)
    }
}

/// A key as an owned text.
fn owned_key(key: Option<&str>) -> (r: Option<String>)
    ensures
        match key {
            Some(k) => r matches Some(s) && s@ == k@,
            None => r is None,
        },
{
    match key {
        Some(k) => Some(String::from_str(k)),
        None => None,
    }
}

/// A key as a borrowed text.
fn borrowed_key(key: &Option<String>) -> (r: Option<&str>)
    ensures
        match key {
            Some(k) => r matches Some(s) && s@ == k@,
            None => r is None,
        },
{
    match key {
        Some(k) => Some(k.as_str()),
        None => None,
    }
}

fn upper_filter(filter: Option<&str>) -> (r: Option<String>)
    ensures
        match filter {
            Some(f) => r matches Some(k) && filter_key(Some(f@)) == Some(k@),
            None => r is None,
        },
{
    match filter {
        Some(f) => Some(query_key(f)),
        None => None,
    }
}

fn names_with_prefix(names: &Vec<String>, prefix: &Option<String>) -> (r: Vec<String>)
    ensures
        views(r@) == with_prefix(
            views(names@),
            match prefix {
                Some(p) => Some(p@),
                None => None,
            },
        ),
{
    let ghost key = match prefix {
        Some(p) => Some(p@),
        None => None::<Seq<char>>,
    };
    let mut r: Vec<String> = Vec::new();
    let mut i: usize = 0;
    while i < names.len()
        invariant
            i <= names.len(),
            key == match prefix {
                Some(p) => Some(p@),
                None => None,
            },
            views(r@) == with_prefix(views(names@.take(i as int)), key),
        decreases names.len() - i,
    {
        proof {
            assert(views(names@.take(i + 1)).drop_last() =~= views(names@.take(i as int)));
            assert(views(names@.take(i + 1)).last() == names@[i as int]@);
        }
        let keep = match prefix {
            Some(p) => starts_with(names[i].as_str(), p.as_str()),
            None => true,
        };
        if keep {
            let ghost before = views(r@);
            r.push(names[i].clone());
            proof {
                assert(views(r@) =~= before.push(names@[i as int]@));
            }
        }
        i = i + 1;
    }
    proof {
        assert(names@.take(names.len() as int) =~= names@);
    }
    r
}

impl ChipIndex {
    /// The catalog that a directory listing gives: the names of the files
    /// ending in `.json`, without that suffix, in ascending order.
    pub fn from_file_names(files: &Vec<String>) -> (r: Self)
        ensures
            r@ == sort_texts(json_stems(views(files@))),
            ascending_texts(r@),
    {
        let mut stems: Vec<String> = Vec::new();
        let mut i: usize = 0;
        while i < files.len()
            invariant
                i <= files.len(),
                views(stems@) == json_stems(views(files@.take(i as int))),
            decreases files.len() - i,
        {
            proof {
                assert(views(files@.take(i + 1)).drop_last() =~= views(files@.take(i as int)));
                assert(views(files@.take(i + 1)).last() == files@[i as int]@);
            }
            match strip_json_suffix(files[i].as_str()) {
                Some(stem) => {
                    let ghost before = views(stems@);
                    stems.push(stem);
                    proof {
                        assert(views(stems@) =~= before.push(stems@[stems@.len() - 1]@));
                    }
                },
                None => {},
            }
            i = i + 1;
        }
        proof {
            assert(files@.take(files.len() as int) =~= files@);
        }
        let names = sorted_texts(stems);
        proof {
            lemma_sort_texts(views(stems@));
        }
        ChipIndex { names }
    }

    /// How many chips the catalog holds.
    pub fn len(&self) -> (n: usize)
        ensures
            n == self@.len(),
    {
        self.names.len()
    }

    /// The chips whose names begin with the family filter (upper-cased), or
    /// all chips without a filter, one per line after their count.
    pub fn list_chips(&self, family_filter: Option<&str>) -> (r: String)
        ensures
            r@ == chip_list_text(
                self@,
                match family_filter {
                    Some(f) => Some(f@),
                    None => None,
                },
            ),
    {
        let key = upper_filter(family_filter);
        self.list_chips_for(borrowed_key(&key))
    }

    /// The chips whose names begin with `family_key`, or all chips without
    /// one, one per line after their count.
    pub fn list_chips_for(&self, family_key: Option<&str>) -> (r: String)
        ensures
            r@ == chip_list_key_text(
                self@,
                match family_key {
                    Some(f) => Some(f@),
                    None => None,
                },
            ),
    {
        let key = owned_key(family_key);
        let chips = names_with_prefix(&self.names, &key);
        if chips.len() == 0 {
            return String::from_str("No chips found matching the filter.");
        }
        let mut out = String::new();
        push_dec(&mut out, chips.len() as u64);
        out.append(" chips found:\n");
        let list = join_strings(&chips, "\n");
        out.append(list.as_str());
        out
    }

    /// Begins the search for chips that have a peripheral (named
    /// case-insensitively) among those whose names begin with the family
    /// filter (upper-cased).
    pub fn start_search(&self, peripheral: &str, family_filter: Option<&str>) -> (r: ChipSearch)
        ensures
            r.peripheral() == uppercase_of(peripheral@),
            r.family() == filter_key(
                match family_filter {
                    Some(f) => Some(f@),
                    None => None,
                },
            ),
            r.candidates() == with_prefix(self@, r.family()),
            r.position() == 0,
            r.matches() == Seq::<Seq<char>>::empty(),
            r.outcomes() == Seq::<bool>::empty(),
            r.found_among_candidates(),
            r.matches_as_recorded(),
    {
        let name = query_key(peripheral);
        let family = upper_filter(family_filter);
        self.start_search_for(name.as_str(), borrowed_key(&family))
    }

    /// Begins the search for chips that have a peripheral named exactly
    /// `peripheral_key` among those whose names begin with `family_key`, or
    /// among all chips without one.
    pub fn start_search_for(&self, peripheral_key: &str, family_key: Option<&str>) -> (r: ChipSearch)
        ensures
            r.peripheral() == peripheral_key@,
            r.family() == match family_key {
                Some(f) => Some(f@),
                None => None::<Seq<char>>,
            },
            r.candidates() == with_prefix(self@, r.family()),
            r.position() == 0,
            r.matches() == Seq::<Seq<char>>::empty(),
            r.outcomes() == Seq::<bool>::empty(),
            r.found_among_candidates(),
            r.matches_as_recorded(),
    {
        let name = String::from_str(peripheral_key);
        let family = owned_key(family_key);
        let candidates = names_with_prefix(&self.names, &family);
        let matches: Vec<String> = Vec::new();
        assert(views(matches@) =~= Seq::<Seq<char>>::empty());
        let r = ChipSearch { peripheral: name, family, candidates, next: 0, matches, outcomes: Ghost(Seq::empty()) };
        proof {
            r.lemma_consistent();
        }
        r
    }
}

// ── The search for chips with a peripheral ──

/// Whether a load gave a chip with a peripheral of the name on some core.
pub open spec fn shows_peripheral(loaded: Option<&ChipData>, name: Seq<char>) -> bool {
    match loaded {
        Some(chip) => named_in_cores(chip.cores@, name),
        None => false,
    }
}

/// The names of `names` for which `has` holds, in order.
pub open spec fn having(names: Seq<Seq<char>>, has: spec_fn(Seq<char>) -> bool) -> Seq<Seq<char>>
    decreases names.len(),
{
    if names.len() == 0 {
        Seq::empty()
    } else if has(names.last()) {
        having(names.drop_last(), has).push(names.last())
    } else {
        having(names.drop_last(), has)
    }
}

/// The names whose flag in `keep` is set, in order; the two are read
/// side by side.
pub open spec fn picked(names: Seq<Seq<char>>, keep: Seq<bool>) -> Seq<Seq<char>>
    decreases names.len(),
{
    if names.len() == 0 || keep.len() == 0 {
        Seq::empty()
    } else if keep.last() {
        picked(names.drop_last(), keep.drop_last()).push(names.last())
    } else {
        picked(names.drop_last(), keep.drop_last())
    }
}

/// A search, chip by chip, for chips that have a peripheral. The caller
/// loads each candidate in turn and hands the result to `record`.
pub struct ChipSearch {
    peripheral: String,
    family: Option<String>,
    candidates: Vec<String>,
    next: usize,
    matches: Vec<String>,
    outcomes: Ghost<Seq<bool>>,
}

impl ChipSearch {
    /// Every chip found is one of the candidates looked at, and no more
    /// candidates are looked at than there are; the chips found are the
    /// candidates looked at whose load showed the peripheral, in order.
    #[verifier::type_invariant]
    spec fn consistent(&self) -> bool {
        &&& self.next <= self.candidates@.len()
        &&& self.matches@.len() <= self.next
        &&& forall|k: int|
            0 <= k < self.matches@.len() ==> views(self.candidates@.take(self.next as int)).contains(
                #[trigger] self.matches@[k]@,
            )
        &&& self.outcomes@.len() == self.next
        &&& views(self.matches@) == picked(views(self.candidates@).take(self.next as int), self.outcomes@)
    }

    /// The peripheral name searched for.
    pub closed spec fn peripheral(&self) -> Seq<char> {
        self.peripheral@
    }

    /// The family filter, where there is one.
    pub closed spec fn family(&self) -> Option<Seq<char>> {
        match self.family {
            Some(f) => Some(f@),
            None => None,
        }
    }

    /// The chips to look at, in order.
    pub closed spec fn candidates(&self) -> Seq<Seq<char>> {
        views(self.candidates@)
    }

    /// How many candidates have been looked at.
    pub closed spec fn position(&self) -> nat {
        self.next as nat
    }

    /// The candidates found so far to have the peripheral, in order.
    pub closed spec fn matches(&self) -> Seq<Seq<char>> {
        views(self.matches@)
    }

    /// For each candidate looked at, in order, whether its load showed the
    /// peripheral.
    pub closed spec fn outcomes(&self) -> Seq<bool> {
        self.outcomes@
    }

    /// The chips found are exactly the candidates looked at whose load
    /// showed the peripheral, in order.
    pub open spec fn matches_as_recorded(&self) -> bool {
        &&& self.outcomes().len() == self.position()
        &&& self.matches() == picked(self.candidates().take(self.position() as int), self.outcomes())
    }

    /// Every chip found is one of the candidates looked at so far, and no
    /// more candidates are looked at than there are.
    pub open spec fn found_among_candidates(&self) -> bool {
        &&& self.position() <= self.candidates().len()
        &&& self.matches().len() <= self.position()
        &&& forall|k: int|
            0 <= k < self.matches().len() ==> self.candidates().take(self.position() as int).contains(
                #[trigger] self.matches()[k],
            )
    }

    proof fn lemma_consistent(&self)
        requires
            self.consistent(),
        ensures
            self.found_among_candidates(),
            self.matches_as_recorded(),
    {
        assert forall|k: int| 0 <= k < self.matches().len() implies self.candidates().take(
            self.position() as int,
        ).contains(#[trigger] self.matches()[k]) by {
            assert(self.matches()[k] == self.matches@[k]@);
            assert(views(self.candidates@.take(self.next as int)) =~= self.candidates().take(self.position() as int));
        }
    }

    /// The candidate to load next, where one is left.
    pub fn next_candidate(&self) -> (r: Option<String>)
        ensures
            match r {
                Some(name) => self.position() < self.candidates().len() && name@
                    == self.candidates()[self.position() as int],
                None => self.position() >= self.candidates().len(),
            },
    {
        if self.next < self.candidates.len() {
            Some(self.candidates[self.next].clone())
        } else {
            None
        }
    }

    /// Records what loading the next candidate gave: the chip, or nothing
    /// where it could not be loaded. The candidate is a match where the
    /// chip has a peripheral of the name on some core.
    pub fn record(&mut self, loaded: Option<&ChipData>)
        requires
            old(self).position() < old(self).candidates().len(),
        ensures
            final(self).peripheral() == old(self).peripheral(),
            final(self).family() == old(self).family(),
            final(self).candidates() == old(self).candidates(),
            final(self).position() == old(self).position() + 1,
            final(self).outcomes() == old(self).outcomes().push(shows_peripheral(loaded, old(self).peripheral())),
            final(self).found_among_candidates(),
            final(self).matches_as_recorded(),
            final(self).matches() == if shows_peripheral(loaded, old(self).peripheral()) {
                old(self).matches().push(old(self).candidates()[old(self).position() as int])
            } else {
                old(self).matches()
            },
    {
        proof {
            use_type_invariant(&*self);
        }
        assert(views(self.candidates@).len() == self.candidates@.len());
        assert(self.next < self.candidates.len());
        let found = match loaded {
            Some(chip) => find_peripheral(&chip.cores, &self.peripheral).is_some(),
            None => false,
        };
        let empty_names: Vec<String> = Vec::new();
        let empty_matches: Vec<String> = Vec::new();
        assert(views(empty_matches@) =~= Seq::<Seq<char>>::empty());
        let mut cur = ChipSearch {
            peripheral: String::new(),
            family: None,
            candidates: empty_names,
            next: 0,
            matches: empty_matches,
            outcomes: Ghost(Seq::empty()),
        };
        std::mem::swap(&mut cur, self);
        proof {
            use_type_invariant(&cur);
        }
        let ChipSearch { peripheral, family, candidates, next, mut matches, outcomes } = cur;
        let ghost before = views(matches@);
        let ghost names = views(candidates@);
        let ghost old_take = views(candidates@.take(next as int));
        assert(names.len() == candidates@.len());
        proof {
            assert forall|k: int| 0 <= k < matches@.len() implies views(candidates@.take(next + 1)).contains(
                #[trigger] matches@[k]@,
            ) by {
                assert(old_take.contains(matches@[k]@));
                let m = choose|m: int| 0 <= m < old_take.len() && old_take[m] == matches@[k]@;
                assert(views(candidates@.take(next + 1))[m] == old_take[m]);
            }
            assert(names.take(next + 1).drop_last() =~= names.take(next as int));
            assert(names.take(next + 1).last() == names[next as int]);
            assert(outcomes@.push(found).drop_last() =~= outcomes@);
        }
        if found {
            let name = candidates[next].clone();
            matches.push(name);
            proof {
                assert(views(matches@) =~= before.push(names[next as int]));
                assert(views(candidates@.take(next + 1))[next as int] == name@);
                assert forall|k: int| 0 <= k < matches@.len() implies views(candidates@.take(next + 1)).contains(
                    #[trigger] matches@[k]@,
                ) by {
                    if k < matches@.len() - 1 {
                        assert(matches@[k] == old(self).matches@[k]);
                    }
                }
            }
        }
        *self = ChipSearch {
            peripheral,
            family,
            candidates,
            next: next + 1,
            matches,
            outcomes: Ghost(outcomes@.push(found)),
        };
        proof {
            use_type_invariant(&*self);
            self.lemma_consistent();
        }
    }

    /// The chips found, one per line after their count; or, where none was,
    /// a note naming the peripheral and the family filter.
    pub fn report(&self) -> (r: String)
        ensures
            r@ == search_report_text(self.peripheral(), self.family(), self.matches()),
    {
        if self.matches.len() == 0 {
            let mut out = String::new();
            out.append("No chips found with peripheral '");
            out.append(self.peripheral.as_str());
            out.append("'");
            match &self.family {
                Some(f) => {
                    out.append(" in family ");
                    out.append(f.as_str());
                },
                None => {},
            }
            out.append(".");
            assert(out@ =~= search_report_text(self.peripheral(), self.family(), self.matches()));
            return out;
        }
        let mut out = String::new();
        push_dec(&mut out, self.matches.len() as u64);
        out.append(" chips with ");
        out.append(self.peripheral.as_str());
        out.append(":\n");
        let list = join_strings(&self.matches, "\n");
        out.append(list.as_str());
        assert(out@ =~= search_report_text(self.peripheral(), self.family(), self.matches()));
        out
    }
}

/// The answer of a search.
pub open spec fn search_report_text(
    peripheral: Seq<char>,
    family: Option<Seq<char>>,
    matches: Seq<Seq<char>>,
) -> Seq<char> {
    if matches.len() == 0 {
        "No chips found with peripheral '"@ + peripheral + "'"@ + match family {
            Some(f) => " in family "@ + f,
            None => Seq::empty(),
        } + "."@
    } else {
        dec_digits(matches.len()) + " chips with "@ + peripheral + ":\n"@ + join(matches, "\n"@)
    }
}


// ── Laws ──

/// The name of a chip's file gives back the chip's name.
pub proof fn lemma_chip_file_round_trip(name: Seq<char>)
    ensures
        json_stem(name + seq!['.', 'j', 's', 'o', 'n']) == Some(name),
{
    let f = name + seq!['.', 'j', 's', 'o', 'n'];
    assert(f.subrange(f.len() - 5, f.len() as int) =~= seq!['.', 'j', 's', 'o', 'n']);
    assert(f.subrange(0, f.len() - 5) =~= name);
}

proof fn lemma_json_stems_contains(files: Seq<Seq<char>>, n: Seq<char>)
    ensures
        json_stems(files).contains(n) <==> exists|i: int| 0 <= i < files.len() && json_stem(files[i]) == Some(n),
    decreases files.len(),
{
    if files.len() > 0 {
        let t = files.drop_last();
        lemma_json_stems_contains(t, n);
        let r = json_stems(t);
        if json_stems(files).contains(n) {
            let k = choose|k: int| 0 <= k < json_stems(files).len() && json_stems(files)[k] == n;
            if k < r.len() {
                assert(r.contains(n));
                let i = choose|i: int| 0 <= i < t.len() && json_stem(t[i]) == Some(n);
                assert(files[i] == t[i]);
            } else {
                assert(json_stem(files[files.len() - 1]) == Some(n));
            }
        }
        if exists|i: int| 0 <= i < files.len() && json_stem(files[i]) == Some(n) {
            let i = choose|i: int| 0 <= i < files.len() && json_stem(files[i]) == Some(n);
            if i < files.len() - 1 {
                assert(t[i] == files[i]);
                assert(r.contains(n));
                let k = choose|k: int| 0 <= k < r.len() && r[k] == n;
                assert(json_stems(files)[k] == n);
            } else {
                let last_index = json_stems(files).len() - 1;
                assert(json_stems(files)[last_index] == n);
            }
        }
    }
}

/// The catalog that a directory listing gives is in ascending order and
/// holds a name exactly when some file is named after it with `.json`.
pub proof fn lemma_catalog(files: Seq<Seq<char>>)
    ensures
        ascending_texts(sort_texts(json_stems(files))),
        forall|n: Seq<char>|
            sort_texts(json_stems(files)).contains(n) <==> exists|i: int|
                0 <= i < files.len() && json_stem(files[i]) == Some(n),
{
    broadcast use vstd::seq_lib::group_to_multiset_ensures;

    lemma_sort_texts(json_stems(files));
    assert forall|n: Seq<char>|
        sort_texts(json_stems(files)).contains(n) <==> exists|i: int|
            0 <= i < files.len() && json_stem(files[i]) == Some(n) by {
        lemma_json_stems_contains(files, n);
        assert(sort_texts(json_stems(files)).to_multiset().count(n) == json_stems(files).to_multiset().count(n));
    }
}

/// Listing by family keeps exactly the names that begin with the family,
/// in their order; without a family it keeps all names.
pub proof fn lemma_with_prefix(names: Seq<Seq<char>>, prefix: Option<Seq<char>>)
    ensures
        forall|n: Seq<char>|
            #![trigger with_prefix(names, prefix).contains(n)]
            with_prefix(names, prefix).contains(n) <==> (names.contains(n) && match prefix {
                Some(p) => p.is_prefix_of(n),
                None => true,
            }),
        prefix is None ==> with_prefix(names, prefix) == names,
    decreases names.len(),
{
    if names.len() > 0 {
        let t = names.drop_last();
        lemma_with_prefix(t, prefix);
        let r = with_prefix(t, prefix);
        assert forall|n: Seq<char>|
            with_prefix(names, prefix).contains(n) <==> (names.contains(n) && match prefix {
                Some(p) => p.is_prefix_of(n),
                None => true,
            }) by {
            if with_prefix(names, prefix).contains(n) {
                let k = choose|k: int| 0 <= k < with_prefix(names, prefix).len() && with_prefix(names, prefix)[k] == n;
                if k < r.len() {
                    assert(r[k] == n);
                    assert(r.contains(n));
                    assert(t.contains(n));
                    let m = choose|m: int| 0 <= m < t.len() && t[m] == n;
                    assert(names[m] == n);
                } else {
                    assert(names[names.len() - 1] == n);
                }
            }
            if names.contains(n) && match prefix {
                Some(p) => p.is_prefix_of(n),
                None => true,
            } {
                let k = choose|k: int| 0 <= k < names.len() && names[k] == n;
                if k < names.len() - 1 {
                    assert(t[k] == n);
                    assert(r.contains(n));
                    let m = choose|m: int| 0 <= m < r.len() && r[m] == n;
                    assert(with_prefix(names, prefix)[m] == n);
                } else {
                    let last_index = with_prefix(names, prefix).len() - 1;
                    assert(with_prefix(names, prefix)[last_index] == n);
                }
            }
        }
        if prefix is None {
            assert(names =~= t.push(names.last()));
        }
    }
}

proof fn lemma_picked_having(names: Seq<Seq<char>>, keep: Seq<bool>, has: spec_fn(Seq<char>) -> bool)
    requires
        keep.len() == names.len(),
        forall|k: int| 0 <= k < names.len() ==> keep[k] == has(names[k]),
    ensures
        picked(names, keep) == having(names, has),
    decreases names.len(),
{
    if names.len() > 0 {
        let n = names.drop_last();
        let f = keep.drop_last();
        assert forall|k: int| 0 <= k < n.len() implies f[k] == has(n[k]) by {
            assert(f[k] == keep[k]);
            assert(n[k] == names[k]);
        }
        lemma_picked_having(n, f, has);
        assert(keep.last() == has(names.last()));
    }
}

proof fn lemma_having_with_prefix(names: Seq<Seq<char>>, prefix: Option<Seq<char>>, has: spec_fn(Seq<char>) -> bool)
    ensures
        having(with_prefix(names, prefix), has) == with_prefix(having(names, has), prefix),
    decreases names.len(),
{
    if names.len() > 0 {
        let t = names.drop_last();
        let x = names.last();
        lemma_having_with_prefix(t, prefix, has);
        let kept = match prefix {
            Some(p) => p.is_prefix_of(x),
            None => true,
        };
        if kept {
            assert(with_prefix(names, prefix) == with_prefix(t, prefix).push(x));
            assert(with_prefix(t, prefix).push(x).drop_last() =~= with_prefix(t, prefix));
        } else {
            assert(with_prefix(names, prefix) == with_prefix(t, prefix));
        }
        if has(x) {
            assert(having(names, has) == having(t, has).push(x));
            assert(having(t, has).push(x).drop_last() =~= having(t, has));
        } else {
            assert(having(names, has) == having(t, has));
        }
    }
}

/// Two searches for the same peripheral over the same catalog, one
/// without a family filter and one with, both run through all their
/// candidates, where loading a chip gives the same answer in both (`has`
/// says, by name, whether the loaded chip showed the peripheral): the
/// unfiltered search finds the chips of the catalog for which `has` holds,
/// and the filtered one finds exactly those of them whose names begin with
/// the family, in the same order.
pub proof fn lemma_family_search(
    index: ChipIndex,
    all: ChipSearch,
    some: ChipSearch,
    has: spec_fn(Seq<char>) -> bool,
)
    requires
        all.matches_as_recorded(),
        some.matches_as_recorded(),
        all.peripheral() == some.peripheral(),
        all.family() is None,
        all.candidates() == with_prefix(index@, all.family()),
        some.candidates() == with_prefix(index@, some.family()),
        all.position() == all.candidates().len(),
        some.position() == some.candidates().len(),
        forall|k: int| 0 <= k < all.position() ==> all.outcomes()[k] == has(all.candidates()[k]),
        forall|k: int| 0 <= k < some.position() ==> some.outcomes()[k] == has(some.candidates()[k]),
    ensures
        all.matches() == having(index@, has),
        some.matches() == with_prefix(all.matches(), some.family()),
{
    lemma_with_prefix(index@, None);
    assert(all.candidates().take(all.position() as int) =~= all.candidates());
    assert(some.candidates().take(some.position() as int) =~= some.candidates());
    lemma_picked_having(all.candidates(), all.outcomes(), has);
    lemma_picked_having(some.candidates(), some.outcomes(), has);
    lemma_having_with_prefix(index@, some.family(), has);
}

} // verus!
