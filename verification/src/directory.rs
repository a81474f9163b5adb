//! The directory: which names are on the list of which department.
//!
//! A directory is a finite map from the name of a department to the names
//! that were added to it, in the order in which they were added. A name may
//! be on a list more than once. A department is in the map from the first
//! name that is added to it, so no list in the map is empty; nothing is ever
//! taken out.
//!
//! Reading never shows the order of adding: every list comes out in
//! alphabetical order, and so do the departments.

use crate::order::{
    alphabetical, is_sorted, lemma_alphabetical_is_total_order, lemma_lex_le_antisymmetric,
    lemma_lex_le_total, lemma_lex_le_transitive, lemma_sorted_names, lex_le, lex_lt,
    precedes_or_equals, sort_names, sorted_names,
};
use vstd::prelude::*;
use vstd::seq_lib::{lemma_sorted_unique, to_multiset_contains};

verus! {

/// What a directory holds: for each department that has names, its names in
/// the order in which they were added.
pub type Staff = Map<Seq<char>, Seq<Seq<char>>>;

/// The names on the list of `department`, none where the department is not
/// in `staff`.
pub open spec fn members_of(staff: Staff, department: Seq<char>) -> Seq<Seq<char>> {
    if staff.contains_key(department) {
        staff[department]
    } else {
        Seq::empty()
    }
}

/// `staff` after `name` was added to `department`.
pub open spec fn with_employee(staff: Staff, name: Seq<char>, department: Seq<char>) -> Staff {
    staff.insert(department, members_of(staff, department).push(name))
}

/// What holds of the contents of every directory: the departments are
/// finitely many, and each has a name on its list.
pub open spec fn is_staff(staff: Staff) -> bool {
    &&& staff.dom().finite()
    &&& forall|department: Seq<char>| #[trigger]
        staff.contains_key(department) ==> staff[department].len() > 0
}

/// One department of a listing, with its names.
#[derive(Debug, Clone, PartialEq, Eq)]
pub struct Listing {
    pub department: String,
    pub names: Vec<String>,
}

/// A listing with its texts as sequences of characters.
pub struct ListingText {
    pub department: Seq<char>,
    pub names: Seq<Seq<char>>,
}

impl View for Listing {
    type V = ListingText;

    open spec fn view(&self) -> ListingText {
        ListingText { department: self.department@, names: self.names.deep_view() }
    }
}

/// The listings of `listings` as texts.
pub open spec fn listing_texts(listings: Seq<Listing>) -> Seq<ListingText> {
    listings.map_values(|listing: Listing| listing@)
}

/// Whether `listings` shows all of `staff`: every department once, the
/// departments in ascending alphabetical order, and with each department
/// its names in ascending alphabetical order.
pub open spec fn is_full_listing(staff: Staff, listings: Seq<ListingText>) -> bool {
    &&& forall|i: int, j: int|
        0 <= i < j < listings.len() ==> lex_lt(
            #[trigger] listings[i].department,
            #[trigger] listings[j].department,
        )
    &&& forall|i: int|
        0 <= i < listings.len() ==> {
            &&& staff.contains_key(#[trigger] listings[i].department)
            &&& listings[i].names == sorted_names(staff[listings[i].department])
        }
    &&& forall|department: Seq<char>| #[trigger]
        staff.contains_key(department) ==> exists|i: int|
            0 <= i < listings.len() && #[trigger] listings[i].department == department
}

/// The departments of `listings`, in the order in which they stand.
pub open spec fn departments_of(listings: Seq<ListingText>) -> Seq<Seq<char>> {
    listings.map_values(|listing: ListingText| listing.department)
}

/// A full listing is in order throughout, and shows with each department
/// the names that were added to it, each as often as it was added.
pub proof fn lemma_full_listing_is_in_order(staff: Staff, listings: Seq<ListingText>)
    requires
        is_full_listing(staff, listings),
    ensures
        is_sorted(departments_of(listings)),
        departments_of(listings).no_duplicates(),
        departments_of(listings).to_set() == staff.dom(),
        (forall|i: int|
            0 <= i < listings.len() ==> {
                &&& is_sorted((#[trigger] listings[i]).names)
                &&& listings[i].names.to_multiset() == staff[listings[i].department].to_multiset()
            }),
{
    let departments = departments_of(listings);
    assert forall|i: int, j: int| 0 <= i < j < departments.len() implies #[trigger] alphabetical()(
        departments[i],
        departments[j],
    ) by {
        assert(lex_lt(listings[i].department, listings[j].department));
    }
    assert forall|i: int, j: int|
        0 <= i < departments.len() && 0 <= j < departments.len() && i != j implies departments[i]
        != departments[j] by {
        if i < j {
            assert(lex_lt(listings[i].department, listings[j].department));
        } else {
            assert(lex_lt(listings[j].department, listings[i].department));
        }
    }
    assert forall|department: Seq<char>|
        departments.to_set().contains(department) <==> staff.dom().contains(department) by {
        if departments.contains(department) {
            let i = choose|i: int| 0 <= i < departments.len() && departments[i] == department;
            assert(staff.contains_key(listings[i].department));
        }
        if staff.contains_key(department) {
            let i = choose|i: int|
                0 <= i < listings.len() && #[trigger] listings[i].department == department;
            assert(departments[i] == department);
        }
    }
    assert(departments.to_set() =~= staff.dom());
    assert forall|i: int| 0 <= i < listings.len() implies {
        &&& is_sorted((#[trigger] listings[i]).names)
        &&& listings[i].names.to_multiset() == staff[listings[i].department].to_multiset()
    } by {
        assert(staff.contains_key(listings[i].department));
        lemma_sorted_names(staff[listings[i].department]);
    }
}

/// What a directory holds has one full listing only.
pub proof fn lemma_full_listing_is_unique(
    staff: Staff,
    first: Seq<ListingText>,
    second: Seq<ListingText>,
)
    requires
        is_full_listing(staff, first),
        is_full_listing(staff, second),
    ensures
        first == second,
{
    let a = departments_of(first);
    let b = departments_of(second);
    lemma_full_listing_is_in_order(staff, first);
    lemma_full_listing_is_in_order(staff, second);
    a.lemma_multiset_has_no_duplicates();
    b.lemma_multiset_has_no_duplicates();
    assert forall|department: Seq<char>|
        a.to_multiset().count(department) == b.to_multiset().count(department) by {
        to_multiset_contains(a, department);
        to_multiset_contains(b, department);
        assert(a.to_set().contains(department) == b.to_set().contains(department));
    }
    assert(a.to_multiset() =~= b.to_multiset());
    lemma_alphabetical_is_total_order();
    lemma_sorted_unique(a, b, alphabetical());
    assert(first.len() == second.len());
    assert forall|i: int| 0 <= i < first.len() implies first[i] == second[i] by {
        assert(a[i] == b[i]);
        assert(staff.contains_key(first[i].department));
    }
    assert(first =~= second);
}

/// A department as the directory keeps it.
struct Department {
    name: String,
    members: Vec<String>,
}

/// The directory of a session.
pub struct Directory {
    departments: Vec<Department>,
}

/// The departments of a directory as pairs of texts.
type Entries = Seq<(Seq<char>, Seq<Seq<char>>)>;

/// Whether the departments stand in strictly ascending alphabetical order.
spec fn ascending(entries: Entries) -> bool {
    forall|i: int, j: int|
        0 <= i < j < entries.len() ==> lex_lt(#[trigger] entries[i].0, #[trigger] entries[j].0)
}

/// Whether `department` is among `entries`.
spec fn has_department(entries: Entries, department: Seq<char>) -> bool {
    exists|i: int| 0 <= i < entries.len() && #[trigger] entries[i].0 == department
}

/// A place where `department` stands in `entries`.
spec fn place_of(entries: Entries, department: Seq<char>) -> int {
    choose|i: int| 0 <= i < entries.len() && #[trigger] entries[i].0 == department
}

/// The map that `entries` stands for.
spec fn staff_of(entries: Entries) -> Staff {
    Map::new(
        |department: Seq<char>| has_department(entries, department),
        |department: Seq<char>| entries[place_of(entries, department)].1,
    )
}

/// Each entry is found in the map under its department.
proof fn lemma_entry_in_staff(entries: Entries, i: int)
    requires
        ascending(entries),
        0 <= i < entries.len(),
    ensures
        staff_of(entries).contains_key(entries[i].0),
        staff_of(entries)[entries[i].0] == entries[i].1,
{
    let department = entries[i].0;
    let place = place_of(entries, department);
    if place < i {
        assert(lex_lt(entries[place].0, entries[i].0));
    } else if i < place {
        assert(lex_lt(entries[i].0, entries[place].0));
    }
}

/// The departments of a map of entries are finitely many.
proof fn lemma_staff_is_finite(entries: Entries)
    ensures
        staff_of(entries).dom().finite(),
    decreases entries.len(),
{
    if entries.len() == 0 {
        assert(staff_of(entries).dom() =~= Set::empty());
    } else {
        let front = entries.drop_last();
        lemma_staff_is_finite(front);
        assert forall|department: Seq<char>|
            staff_of(entries).dom().contains(department) <==> staff_of(front).dom().insert(
                entries.last().0,
            ).contains(department) by {
            if has_department(entries, department) {
                let i = place_of(entries, department);
                if i < front.len() {
                    assert(front[i].0 == department);
                }
            }
            if has_department(front, department) {
                let i = place_of(front, department);
                assert(entries[i].0 == department);
            }
            if department == entries.last().0 {
                assert(entries[entries.len() - 1].0 == department);
            }
        }
        assert(staff_of(entries).dom() =~= staff_of(front).dom().insert(entries.last().0));
    }
}

/// A map of entries without an empty list is what a directory may hold.
proof fn lemma_entries_are_staff(entries: Entries)
    requires
        forall|i: int| 0 <= i < entries.len() ==> (#[trigger] entries[i]).1.len() > 0,
    ensures
        is_staff(staff_of(entries)),
{
    lemma_staff_is_finite(entries);
}

/// A new list for the department at place `i` is a new list under its name
/// in the map.
proof fn lemma_new_members(entries: Entries, i: int, members: Seq<Seq<char>>)
    requires
        ascending(entries),
        0 <= i < entries.len(),
    ensures
        ascending(entries.update(i, (entries[i].0, members))),
        staff_of(entries.update(i, (entries[i].0, members))) == staff_of(entries).insert(
            entries[i].0,
            members,
        ),
{
    let after = entries.update(i, (entries[i].0, members));
    assert forall|a: int, b: int| 0 <= a < b < after.len() implies lex_lt(
        #[trigger] after[a].0,
        #[trigger] after[b].0,
    ) by {
        assert(lex_lt(entries[a].0, entries[b].0));
    }
    let expected = staff_of(entries).insert(entries[i].0, members);
    assert forall|department: Seq<char>|
        staff_of(after).contains_key(department) <==> expected.contains_key(department) by {
        if has_department(after, department) {
            let at = place_of(after, department);
            assert(entries[at].0 == department);
        }
        if has_department(entries, department) {
            let at = place_of(entries, department);
            assert(after[at].0 == department);
        }
        if department == entries[i].0 {
            assert(after[i].0 == department);
        }
    }
    assert forall|department: Seq<char>| staff_of(after).contains_key(department) implies staff_of(
        after,
    )[department] == expected[department] by {
        let at = place_of(after, department);
        lemma_entry_in_staff(after, at);
        if at != i {
            lemma_entry_in_staff(entries, at);
            if at < i {
                assert(lex_lt(entries[at].0, entries[i].0));
            } else {
                assert(lex_lt(entries[i].0, entries[at].0));
            }
        }
    }
    assert(staff_of(after) =~= expected);
}

/// A department put in at its place in the order is a new department in
/// the map.
proof fn lemma_new_department(
    entries: Entries,
    i: int,
    department: Seq<char>,
    members: Seq<Seq<char>>,
)
    requires
        ascending(entries),
        0 <= i <= entries.len(),
        forall|j: int| 0 <= j < i ==> lex_lt(#[trigger] entries[j].0, department),
        forall|j: int| i <= j < entries.len() ==> lex_lt(department, #[trigger] entries[j].0),
    ensures
        ascending(entries.insert(i, (department, members))),
        !staff_of(entries).contains_key(department),
        staff_of(entries.insert(i, (department, members))) == staff_of(entries).insert(
            department,
            members,
        ),
{
    let after = entries.insert(i, (department, members));
    assert forall|a: int, b: int| 0 <= a < b < after.len() implies lex_lt(
        #[trigger] after[a].0,
        #[trigger] after[b].0,
    ) by {
        if b < i {
            assert(lex_lt(entries[a].0, entries[b].0));
        } else if b == i {
            assert(lex_lt(entries[a].0, department));
        } else if a == i {
            assert(lex_lt(department, entries[b - 1].0));
        } else if a < i {
            assert(lex_lt(entries[a].0, entries[b - 1].0));
        } else {
            assert(lex_lt(entries[a - 1].0, entries[b - 1].0));
        }
    }
    if has_department(entries, department) {
        let at = place_of(entries, department);
        if at < i {
            assert(lex_lt(entries[at].0, department));
        } else {
            assert(lex_lt(department, entries[at].0));
        }
    }
    let expected = staff_of(entries).insert(department, members);
    assert forall|d: Seq<char>| staff_of(after).contains_key(d) <==> expected.contains_key(d) by {
        if has_department(after, d) {
            let at = place_of(after, d);
            if at < i {
                assert(entries[at].0 == d);
            } else if at > i {
                assert(entries[at - 1].0 == d);
            }
        }
        if has_department(entries, d) {
            let at = place_of(entries, d);
            if at < i {
                assert(after[at].0 == d);
            } else {
                assert(after[at + 1].0 == d);
            }
        }
        if d == department {
            assert(after[i].0 == d);
        }
    }
    assert forall|d: Seq<char>| staff_of(after).contains_key(d) implies staff_of(after)[d]
        == expected[d] by {
        let at = place_of(after, d);
        lemma_entry_in_staff(after, at);
        if at < i {
            lemma_entry_in_staff(entries, at);
        } else if at > i {
            lemma_entry_in_staff(entries, at - 1);
        }
    }
    assert(staff_of(after) =~= expected);
}

impl Directory {
    /// The departments as pairs of texts.
    spec fn entries(&self) -> Entries {
        Seq::new(
            self.departments@.len(),
            |i: int| (self.departments@[i].name@, self.departments@[i].members.deep_view()),
        )
    }

    /// The departments stand in strictly ascending alphabetical order, and
    /// each has a name on its list.
    #[verifier::type_invariant]
    spec fn well_formed(&self) -> bool {
        &&& ascending(self.entries())
        &&& forall|i: int|
            0 <= i < self.departments@.len() ==> (#[trigger] self.departments@[i]).members@.len()
                > 0
    }

    /// What the directory holds.
    pub closed spec fn view(&self) -> Staff {
        staff_of(self.entries())
    }

    /// A directory without departments.
    pub fn new() -> (directory: Directory)
        ensures
            directory@ == Map::<Seq<char>, Seq<Seq<char>>>::empty(),
            is_staff(directory@),
    {
        let directory = Directory { departments: Vec::new() };
        assert(directory@ =~= Map::<Seq<char>, Seq<Seq<char>>>::empty());
        directory
    }

    /// Finds the place of `department` in the order: the number of
    /// departments that come before it, and whether it stands there.
    fn locate(&self, department: &str) -> (r: (usize, bool))
        ensures
            r.0 <= self.departments@.len(),
            forall|j: int| 0 <= j < r.0 ==> lex_lt(#[trigger] self.entries()[j].0, department@),
            r.1 ==> r.0 < self.departments@.len() && self.entries()[r.0 as int].0 == department@,
            !r.1 ==> forall|j: int|
                r.0 <= j < self.departments@.len() ==> lex_lt(
                    department@,
                    #[trigger] self.entries()[j].0,
                ),
            r.1 == self@.contains_key(department@),
    {
        proof {
            use_type_invariant(self);
        }
        let mut at: usize = 0;
        while at < self.departments.len() && !precedes_or_equals(
            department,
            self.departments[at].name.as_str(),
        )
            invariant
                at <= self.departments@.len(),
                forall|j: int| 0 <= j < at ==> lex_lt(#[trigger] self.entries()[j].0, department@),
            decreases self.departments@.len() - at,
        {
            proof {
                lemma_lex_le_total(department@, self.entries()[at as int].0);
            }
            at += 1;
        }
        let found = at < self.departments.len() && precedes_or_equals(
            self.departments[at].name.as_str(),
            department,
        );
        proof {
            let entries = self.entries();
            if found {
                lemma_lex_le_antisymmetric(entries[at as int].0, department@);
                lemma_entry_in_staff(entries, at as int);
            } else {
                assert forall|j: int| at <= j < entries.len() implies lex_lt(
                    department@,
                    #[trigger] entries[j].0,
                ) by {
                    assert(lex_le(department@, entries[at as int].0));
                    if at < j {
                        assert(lex_lt(entries[at as int].0, entries[j].0));
                        lemma_lex_le_transitive(department@, entries[at as int].0, entries[j].0);
                        if department@ == entries[j].0 {
                            lemma_lex_le_antisymmetric(entries[at as int].0, entries[j].0);
                        }
                    }
                }
                if has_department(entries, department@) {
                    let place = place_of(entries, department@);
                    if place < at {
                        assert(lex_lt(entries[place].0, department@));
                    } else {
                        assert(lex_lt(department@, entries[place].0));
                    }
                }
            }
        }
        (at, found)
    }

    /// Puts `name` at the end of the list of `department`. The department
    /// is new in the directory if it had no names.
    pub fn add(&mut self, name: &str, department: &str)
        ensures
            final(self)@ == with_employee(old(self)@, name@, department@),
            is_staff(final(self)@),
    {
        proof {
            use_type_invariant(&*self);
            lemma_entries_are_staff(self.entries());
        }
        let (at, found) = self.locate(department);
        let ghost entries = self.entries();
        let mut departments: Vec<Department> = Vec::new();
        core::mem::swap(&mut self.departments, &mut departments);
        if found {
            proof {
                lemma_entry_in_staff(entries, at as int);
                lemma_new_members(entries, at as int, entries[at as int].1.push(name@));
            }
            let ghost before = departments@;
            departments[at].members.push(name.to_owned());
            assert(departments@[at as int].members.deep_view() =~= before[at as int].members.deep_view().push(
                name@,
            ));
        } else {
            let mut members: Vec<String> = Vec::new();
            members.push(name.to_owned());
            assert(members.deep_view() =~= Seq::<Seq<char>>::empty().push(name@));
            proof {
                lemma_new_department(entries, at as int, department@, members.deep_view());
            }
            departments.insert(at, Department { name: department.to_owned(), members });
        }
        proof {
            let after = Seq::new(
                departments@.len(),
                |i: int| (departments@[i].name@, departments@[i].members.deep_view()),
            );
            if found {
                assert(after =~= entries.update(
                    at as int,
                    (entries[at as int].0, entries[at as int].1.push(name@)),
                ));
            } else {
                assert(after =~= entries.insert(
                    at as int,
                    (department@, Seq::<Seq<char>>::empty().push(name@)),
                ));
            }
            lemma_entries_are_staff(after);
        }
        self.departments = departments;
    }

    /// The names of `department` in ascending alphabetical order, or
    /// nothing where the directory has no such department.
    pub fn list_department(&self, department: &str) -> (names: Option<Vec<String>>)
        ensures
            (match names {
                Some(names) => self@.contains_key(department@) && names.deep_view() == sorted_names(
                    self@[department@],
                ),
                None => !self@.contains_key(department@),
            }),
            is_staff(self@),
    {
        proof {
            use_type_invariant(self);
            lemma_entries_are_staff(self.entries());
        }
        let (at, found) = self.locate(department);
        if found {
            proof {
                lemma_entry_in_staff(self.entries(), at as int);
            }
            Some(sort_names(&self.departments[at].members))
        } else {
            None
        }
    }

    /// Every department with its names, the departments and the names of
    /// each in ascending alphabetical order.
    pub fn list_all(&self) -> (listings: Vec<Listing>)
        ensures
            is_full_listing(self@, listing_texts(listings@)),
            is_staff(self@),
    {
        proof {
            use_type_invariant(self);
            lemma_entries_are_staff(self.entries());
        }
        let ghost entries = self.entries();
        let mut listings: Vec<Listing> = Vec::new();
        let mut i: usize = 0;
        while i < self.departments.len()
            invariant
                i <= self.departments@.len(),
                entries == self.entries(),
                ascending(entries),
                listings@.len() == i,
                forall|j: int|
                    0 <= j < i ==> {
                        &&& (#[trigger] listings@[j])@.department == entries[j].0
                        &&& listings@[j]@.names == sorted_names(entries[j].1)
                    },
            decreases self.departments@.len() - i,
        {
            let department = &self.departments[i];
            listings.push(
                Listing {
                    department: department.name.clone(),
                    names: sort_names(&department.members),
                },
            );
            i += 1;
        }
        proof {
            let texts = listing_texts(listings@);
            assert forall|a: int, b: int| 0 <= a < b < texts.len() implies lex_lt(
                #[trigger] texts[a].department,
                #[trigger] texts[b].department,
            ) by {
                assert(listings@[a]@.department == entries[a].0);
                assert(listings@[b]@.department == entries[b].0);
                assert(lex_lt(entries[a].0, entries[b].0));
            }
            assert forall|a: int| 0 <= a < texts.len() implies {
                &&& self@.contains_key(#[trigger] texts[a].department)
                &&& texts[a].names == sorted_names(self@[texts[a].department])
            } by {
                assert(listings@[a]@.department == entries[a].0);
                lemma_entry_in_staff(entries, a);
            }
            assert forall|department: Seq<char>| #[trigger]
                self@.contains_key(department) implies exists|a: int|
                0 <= a < texts.len() && #[trigger] texts[a].department == department by {
                let at = place_of(entries, department);
                assert(listings@[at]@.department == entries[at].0);
                assert(texts[at].department == department);
            }
        }
        listings
    }
}

} // verus!
