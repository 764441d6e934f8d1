//! Sets and maps over values that can be compared and copied, in order of insertion.
use vstd::prelude::*;
use vstd::std_specs::cmp::PartialEqSpecImpl;

verus! {

/// A value that is fully described by its view.
pub trait Value: View + Sized {
    /// Reports whether two values have the same view.
    fn same(&self, other: &Self) -> (r: bool)
        ensures
            r == (self@ == other@),
    ;

    /// Copies the value.
    fn duplicate(&self) -> (r: Self)
        ensures
            r@ == self@,
    ;
}

impl Value for String {
    fn same(&self, other: &Self) -> (r: bool) {
        *self == *other
    }

    fn duplicate(&self) -> (r: Self) {
        self.clone()
    }
}

/// The views of a row of values.
pub open spec fn viewed<T: View>(items: Seq<T>) -> Seq<T::V> {
    Seq::new(items.len(), |i: int| items[i]@)
}

/// The view of an optional value.
pub open spec fn viewed_option<T: View>(item: Option<T>) -> Option<T::V> {
    match item {
        Some(item) => Some(item@),
        None => None,
    }
}

/// The views of a row grow with the row.
pub proof fn lemma_viewed_push<T: View>(items: Seq<T>, item: T)
    ensures
        viewed(items.push(item)) == viewed(items).push(item@),
{
    assert(viewed(items.push(item)) =~= viewed(items).push(item@));
}

/// Copies a row of values.
pub fn duplicate_all<T: Value>(items: &Vec<T>) -> (r: Vec<T>)
    ensures
        viewed(r@) == viewed(items@),
{
    let mut r: Vec<T> = Vec::new();
    let mut i: usize = 0;
    while i < items.len()
        invariant
            i <= items@.len(),
            r@.len() == i,
            forall|j: int| 0 <= j < i ==> (#[trigger] r@[j])@ == items@[j]@,
        decreases items@.len() - i,
    {
        r.push(items[i].duplicate());
        i += 1;
    }
    assert(viewed(r@) =~= viewed(items@));
    r
}

/// Compares two rows of values.
pub fn same_all<T: Value>(a: &Vec<T>, b: &Vec<T>) -> (r: bool)
    ensures
        r == (viewed(a@) == viewed(b@)),
{
    if a.len() != b.len() {
        assert(viewed(a@).len() != viewed(b@).len());
        return false;
    }
    let mut i: usize = 0;
    while i < a.len()
        invariant
            i <= a@.len(),
            a@.len() == b@.len(),
            forall|j: int| 0 <= j < i ==> (#[trigger] a@[j])@ == b@[j]@,
        decreases a@.len() - i,
    {
        if !a[i].same(&b[i]) {
            assert(viewed(a@)[i as int] != viewed(b@)[i as int]);
            return false;
        }
        i += 1;
    }
    assert(viewed(a@) =~= viewed(b@));
    true
}

/// Copies an optional value.
pub fn duplicate_option<T: Value>(item: &Option<T>) -> (r: Option<T>)
    ensures
        viewed_option(r) == viewed_option(*item),
{
    match item {
        Some(item) => Some(item.duplicate()),
        None => None,
    }
}

/// Compares two optional values.
pub fn same_option<T: Value>(a: &Option<T>, b: &Option<T>) -> (r: bool)
    ensures
        r == (viewed_option(*a) == viewed_option(*b)),
{
    match (a, b) {
        (Some(a), Some(b)) => a.same(b),
        (None, None) => true,
        _ => false,
    }
}

/// Distinct values in the order in which they were first inserted.
#[derive(Debug)]
pub struct OrderedSet<T> {
    items: Vec<T>,
}

impl<T: View> View for OrderedSet<T> {
    type V = Set<T::V>;

    closed spec fn view(&self) -> Set<T::V> {
        viewed(self.items@).to_set()
    }
}

impl<T: View> OrderedSet<T> {
    /// The values in order.
    pub closed spec fn rows(&self) -> Seq<T::V> {
        viewed(self.items@)
    }

    /// No value is held twice.
    pub open spec fn distinct(&self) -> bool {
        self.rows().no_duplicates()
    }

    /// The set holds what its rows hold.
    pub broadcast proof fn lemma_rows(&self)
        ensures
            #[trigger] self@ == self.rows().to_set(),
    {
    }

    /// The set is finite.
    pub proof fn lemma_finite(&self)
        ensures
            self@.finite(),
    {
    }

    pub fn new() -> (r: Self)
        ensures
            r@ == Set::<T::V>::empty(),
            r.rows() == Seq::<T::V>::empty(),
            r.distinct(),
    {
        let r = OrderedSet { items: Vec::new() };
        assert(r.rows() =~= Seq::empty());
        assert(r@ =~= Set::empty());
        r
    }

    pub fn len(&self) -> (r: usize)
        ensures
            r == self.rows().len(),
            self@.finite(),
            self.distinct() ==> r == self@.len(),
    {
        proof {
            if self.distinct() {
                self.rows().unique_seq_to_set();
            }
        }
        self.items.len()
    }

    pub fn is_empty(&self) -> (r: bool)
        ensures
            r == (self@ == Set::<T::V>::empty()),
            r == (self.rows().len() == 0),
    {
        proof {
            if self.rows().len() == 0 {
                assert(self@ =~= Set::empty());
            } else {
                assert(self@.contains(self.rows()[0]));
            }
        }
        self.items.len() == 0
    }

    /// The value at position `i` in the order of insertion.
    pub fn get(&self, i: usize) -> (r: &T)
        requires
            i < self.rows().len(),
        ensures
            r@ == self.rows()[i as int],
            self@.contains(r@),
    {
        assert(self@.contains(self.rows()[i as int]));
        &self.items[i]
    }
}

/// A row with one more value holds that value and all before.
pub proof fn lemma_push_to_set<A>(row: Seq<A>, item: A)
    ensures
        row.push(item).to_set() == row.to_set().insert(item),
{
    assert forall|a: A| row.push(item).to_set().contains(a) == row.to_set().insert(item).contains(
        a,
    ) by {
        if row.to_set().contains(a) {
            let i = choose|i: int| 0 <= i < row.len() && row[i] == a;
            assert(row.push(item)[i] == a);
        }
        assert(row.push(item)[row.len() as int] == item);
    }
    assert(row.push(item).to_set() =~= row.to_set().insert(item));
}

impl<T: Value> OrderedSet<T> {
    pub fn contains(&self, item: &T) -> (r: bool)
        ensures
            r == self@.contains(item@),
    {
        let mut i: usize = 0;
        while i < self.items.len()
            invariant
                i <= self.items@.len(),
                forall|j: int| 0 <= j < i ==> #[trigger] self.rows()[j] != item@,
            decreases self.items@.len() - i,
        {
            if self.items[i].same(item) {
                assert(self.rows()[i as int] == item@);
                return true;
            }
            i += 1;
        }
        proof {
            if self@.contains(item@) {
                let j = choose|j: int| 0 <= j < self.rows().len() && self.rows()[j] == item@;
                assert(self.rows()[j] != item@);
            }
        }
        false
    }

    /// Adds a value unless it is there already.
    pub fn insert(&mut self, item: T)
        ensures
            final(self)@ == old(self)@.insert(item@),
            final(self).rows() == if old(self)@.contains(item@) {
                old(self).rows()
            } else {
                old(self).rows().push(item@)
            },
            old(self).distinct() ==> final(self).distinct(),
    {
        if self.contains(&item) {
            assert(self@ =~= old(self)@.insert(item@));
            return ;
        }
        let ghost before = self.rows();
        assert forall|i: int| 0 <= i < before.len() implies before[i] != item@ by {
            assert(before.to_set().contains(before[i]));
        }
        proof {
            lemma_viewed_push(self.items@, item);
            lemma_push_to_set(before, item@);
        }
        self.items.push(item);
    }

    /// Adds all values of another set.
    pub fn extend(&mut self, other: &OrderedSet<T>)
        ensures
            final(self)@ == old(self)@.union(other@),
            old(self).distinct() ==> final(self).distinct(),
    {
        let ghost rows = other.rows();
        let mut i: usize = 0;
        assert(rows.take(0).to_set() =~= Set::empty());
        assert(self@ =~= old(self)@.union(rows.take(0).to_set()));
        while i < other.items.len()
            invariant
                rows == other.rows(),
                i <= other.items@.len(),
                rows.len() == other.items@.len(),
                self@ == old(self)@.union(rows.take(i as int).to_set()),
                old(self).distinct() ==> self.distinct(),
            decreases other.items@.len() - i,
        {
            self.insert(other.items[i].duplicate());
            proof {
                assert(rows.take(i + 1) =~= rows.take(i as int).push(rows[i as int]));
                lemma_push_to_set(rows.take(i as int), rows[i as int]);
                assert(self@ =~= old(self)@.union(rows.take(i + 1).to_set()));
            }
            i += 1;
        }
        assert(rows.take(i as int) =~= rows);
    }

    /// The values of this set that the other one does not hold.
    pub fn difference(&self, other: &OrderedSet<T>) -> (r: Self)
        ensures
            r@ == self@.difference(other@),
            r.distinct(),
    {
        let ghost rows = self.rows();
        let mut r = OrderedSet::new();
        let mut i: usize = 0;
        assert(rows.take(0).to_set() =~= Set::empty());
        assert(r@ =~= rows.take(0).to_set().difference(other@));
        while i < self.items.len()
            invariant
                rows == self.rows(),
                i <= self.items@.len(),
                rows.len() == self.items@.len(),
                r@ == rows.take(i as int).to_set().difference(other@),
                r.distinct(),
            decreases self.items@.len() - i,
        {
            if !other.contains(&self.items[i]) {
                r.insert(self.items[i].duplicate());
            }
            proof {
                assert(rows.take(i + 1) =~= rows.take(i as int).push(rows[i as int]));
                lemma_push_to_set(rows.take(i as int), rows[i as int]);
                assert(r@ =~= rows.take(i + 1).to_set().difference(other@));
            }
            i += 1;
        }
        assert(rows.take(i as int) =~= rows);
        r
    }

    /// The set of the values of a row.
    pub fn from_vec(items: Vec<T>) -> (r: Self)
        ensures
            r@ == viewed(items@).to_set(),
            r.distinct(),
            viewed(items@).no_duplicates() ==> r.rows() == viewed(items@),
    {
        let ghost rows = viewed(items@);
        let mut r = OrderedSet::new();
        let mut i: usize = 0;
        assert(rows.take(0) =~= Seq::empty());
        assert(rows.take(0).to_set() =~= Set::empty());
        while i < items.len()
            invariant
                rows == viewed(items@),
                i <= items@.len(),
                r@ == rows.take(i as int).to_set(),
                r.distinct(),
                rows.no_duplicates() ==> r.rows() == rows.take(i as int),
            decreases items@.len() - i,
        {
            r.insert(items[i].duplicate());
            proof {
                assert(rows.take(i + 1) =~= rows.take(i as int).push(rows[i as int]));
                lemma_push_to_set(rows.take(i as int), rows[i as int]);
            }
            i += 1;
        }
        assert(rows.take(i as int) =~= rows);
        r
    }

    /// The values in order.
    pub fn to_vec(&self) -> (r: Vec<T>)
        ensures
            viewed(r@) == self.rows(),
    {
        duplicate_all(&self.items)
    }

    /// Every value of this set is one of the other.
    pub fn is_subset(&self, other: &OrderedSet<T>) -> (r: bool)
        ensures
            r == self@.subset_of(other@),
    {
        let mut i: usize = 0;
        while i < self.items.len()
            invariant
                i <= self.items@.len(),
                forall|j: int| 0 <= j < i ==> other@.contains(#[trigger] self.rows()[j]),
            decreases self.items@.len() - i,
        {
            if !other.contains(&self.items[i]) {
                assert(self@.contains(self.rows()[i as int]));
                return false;
            }
            i += 1;
        }
        assert forall|v: T::V| self@.contains(v) implies other@.contains(v) by {
            let j = choose|j: int| 0 <= j < self.rows().len() && self.rows()[j] == v;
            assert(other@.contains(self.rows()[j]));
        }
        true
    }
}

impl<T: Value> Value for OrderedSet<T> {
    fn same(&self, other: &Self) -> (r: bool) {
        let r = self.is_subset(other) && other.is_subset(self);
        assert(r ==> self@ =~= other@);
        r
    }

    fn duplicate(&self) -> (r: Self) {
        let r = OrderedSet { items: duplicate_all(&self.items) };
        assert(r.rows() == self.rows());
        r
    }
}

impl<T: Value> Clone for OrderedSet<T> {
    fn clone(&self) -> (r: Self)
        ensures
            r@ == self@,
            r.rows() == self.rows(),
    {
        OrderedSet { items: duplicate_all(&self.items) }
    }
}

impl<T: Value> PartialEqSpecImpl for OrderedSet<T> {
    open spec fn obeys_eq_spec() -> bool {
        true
    }

    open spec fn eq_spec(&self, other: &Self) -> bool {
        self@ == other@
    }
}

impl<T: Value> PartialEq for OrderedSet<T> {
    fn eq(&self, other: &Self) -> (r: bool) {
        self.same(other)
    }
}

/// Values found by name, in the order in which the names were first inserted.
#[derive(Debug)]
pub struct OrderedMap<V> {
    entries: Vec<(String, V)>,
}

/// The map that a row of entries describes; a later entry replaces an earlier one.
pub open spec fn map_of<A>(rows: Seq<(Seq<char>, A)>) -> Map<Seq<char>, A>
    decreases rows.len(),
{
    if rows.len() == 0 {
        Map::empty()
    } else {
        map_of(rows.drop_last()).insert(rows.last().0, rows.last().1)
    }
}

/// A name is in the map when some entry has it; the last such entry gives its value.
pub proof fn lemma_map_of<A>(rows: Seq<(Seq<char>, A)>, i: int)
    requires
        0 <= i < rows.len(),
        forall|j: int| i < j < rows.len() ==> (#[trigger] rows[j]).0 != rows[i].0,
    ensures
        map_of(rows).contains_key(rows[i].0),
        map_of(rows)[rows[i].0] == rows[i].1,
    decreases rows.len(),
{
    if i < rows.len() - 1 {
        assert(rows.drop_last()[i] == rows[i]);
        assert forall|j: int| i < j < rows.drop_last().len() implies (
        #[trigger] rows.drop_last()[j]).0 != rows.drop_last()[i].0 by {
            assert(rows[j].0 != rows[i].0);
        }
        lemma_map_of(rows.drop_last(), i);
        assert(rows[rows.len() - 1].0 != rows[i].0);
    }
}

/// A name that no entry has is not in the map.
pub proof fn lemma_map_of_absent<A>(rows: Seq<(Seq<char>, A)>, name: Seq<char>)
    ensures
        map_of(rows).contains_key(name) == exists|i: int|
            0 <= i < rows.len() && (#[trigger] rows[i]).0 == name,
        map_of(rows).dom().finite(),
    decreases rows.len(),
{
    if rows.len() > 0 {
        lemma_map_of_absent(rows.drop_last(), name);
        if exists|i: int| 0 <= i < rows.len() && (#[trigger] rows[i]).0 == name {
            let i = choose|i: int| 0 <= i < rows.len() && (#[trigger] rows[i]).0 == name;
            if i < rows.len() - 1 {
                assert(rows.drop_last()[i].0 == name);
            }
        }
        if map_of(rows.drop_last()).contains_key(name) {
            let i = choose|i: int|
                0 <= i < rows.drop_last().len() && (#[trigger] rows.drop_last()[i]).0 == name;
            assert(rows[i].0 == name);
        }
        assert(rows[rows.len() - 1] == rows.last());
    }
}

/// Replacing the value of the last entry of a name replaces the value in the map.
pub proof fn lemma_map_of_update<A>(rows: Seq<(Seq<char>, A)>, i: int, value: A)
    requires
        0 <= i < rows.len(),
        forall|j: int| i < j < rows.len() ==> (#[trigger] rows[j]).0 != rows[i].0,
    ensures
        map_of(rows.update(i, (rows[i].0, value))) == map_of(rows).insert(rows[i].0, value),
    decreases rows.len(),
{
    let updated = rows.update(i, (rows[i].0, value));
    if i < rows.len() - 1 {
        assert(rows.drop_last()[i] == rows[i]);
        assert forall|j: int| i < j < rows.drop_last().len() implies (
        #[trigger] rows.drop_last()[j]).0 != rows.drop_last()[i].0 by {
            assert(rows[j].0 != rows[i].0);
        }
        lemma_map_of_update(rows.drop_last(), i, value);
        assert(updated.drop_last() =~= rows.drop_last().update(i, (rows[i].0, value)));
        assert(updated.last() == rows.last());
        assert(rows[rows.len() - 1].0 != rows[i].0);
        assert(map_of(updated) =~= map_of(rows).insert(rows[i].0, value));
    } else {
        assert(updated.drop_last() =~= rows.drop_last());
        assert(map_of(updated) =~= map_of(rows).insert(rows[i].0, value));
    }
}

impl<V: View> View for OrderedMap<V> {
    type V = Map<Seq<char>, V::V>;

    closed spec fn view(&self) -> Map<Seq<char>, V::V> {
        map_of(self.rows())
    }
}

impl<V: View> OrderedMap<V> {
    /// The entries in order.
    pub closed spec fn rows(&self) -> Seq<(Seq<char>, V::V)> {
        Seq::new(self.entries@.len(), |i: int| (self.entries@[i].0@, self.entries@[i].1@))
    }

    /// The map is described by its entries.
    pub broadcast proof fn lemma_rows(&self)
        ensures
            #[trigger] self@ == map_of(self.rows()),
    {
    }

    /// No name is held twice.
    pub open spec fn distinct(&self) -> bool {
        forall|i: int, j: int|
            0 <= i < j < self.rows().len() ==> (#[trigger] self.rows()[i]).0 != (
            #[trigger] self.rows()[j]).0
    }

    pub fn new() -> (r: Self)
        ensures
            r@ == Map::<Seq<char>, V::V>::empty(),
            r.rows().len() == 0,
            r.distinct(),
    {
        let r = OrderedMap { entries: Vec::new() };
        assert(r@ =~= Map::empty());
        r
    }

    /// The number of entries.
    pub fn len(&self) -> (r: usize)
        ensures
            r == self.rows().len(),
    {
        self.entries.len()
    }

    pub fn is_empty(&self) -> (r: bool)
        ensures
            r == (self.rows().len() == 0),
            r == (self@ == Map::<Seq<char>, V::V>::empty()),
    {
        proof {
            if self.rows().len() > 0 {
                lemma_map_of_absent(self.rows(), self.rows()[0].0);
                assert(self@.contains_key(self.rows()[0].0));
            }
        }
        self.entries.len() == 0
    }

    /// The name at position `i` in the order of insertion.
    pub fn name_at(&self, i: usize) -> (r: &String)
        requires
            i < self.rows().len(),
        ensures
            r@ == self.rows()[i as int].0,
            self@.contains_key(r@),
    {
        proof {
            lemma_map_of_absent(self.rows(), self.rows()[i as int].0);
        }
        &self.entries[i].0
    }

    /// The value at position `i` in the order of insertion.
    pub fn value_at(&self, i: usize) -> (r: &V)
        requires
            i < self.rows().len(),
        ensures
            r@ == self.rows()[i as int].1,
            self.distinct() ==> self@[self.rows()[i as int].0] == r@,
    {
        proof {
            if self.distinct() {
                lemma_map_of(self.rows(), i as int);
            }
        }
        &self.entries[i].1
    }

    /// The position of the last entry with the name.
    fn find(&self, name: &str) -> (r: Option<usize>)
        ensures
            match r {
                Some(i) => {
                    &&& i < self.entries@.len()
                    &&& self.rows()[i as int].0 == name@
                    &&& forall|j: int|
                        i < j < self.rows().len() ==> (#[trigger] self.rows()[j]).0
                            != self.rows()[i as int].0
                    &&& self@.contains_key(name@)
                    &&& self@[name@] == self.rows()[i as int].1
                },
                None => !self@.contains_key(name@),
            },
    {
        let wanted = name.to_owned();
        let mut i: usize = self.entries.len();
        while i > 0
            invariant
                wanted@ == name@,
                i <= self.entries@.len(),
                self.rows().len() == self.entries@.len(),
                forall|j: int|
                    i <= j < self.rows().len() ==> (#[trigger] self.rows()[j]).0 != name@,
            decreases i,
        {
            i = i - 1;
            if self.entries[i].0 == wanted {
                proof {
                    lemma_map_of(self.rows(), i as int);
                }
                return Some(i);
            }
        }
        proof {
            lemma_map_of_absent(self.rows(), name@);
        }
        None
    }

    pub fn contains_key(&self, name: &str) -> (r: bool)
        ensures
            r == self@.contains_key(name@),
    {
        self.find(name).is_some()
    }

    pub fn get(&self, name: &str) -> (r: Option<&V>)
        ensures
            match r {
                Some(value) => self@.contains_key(name@) && self@[name@] == value@,
                None => !self@.contains_key(name@),
            },
    {
        match self.find(name) {
            Some(i) => Some(&self.entries[i].1),
            None => None,
        }
    }

    /// Sets the value of a name.
    pub fn insert(&mut self, name: String, value: V)
        ensures
            final(self)@ == old(self)@.insert(name@, value@),
            old(self).distinct() ==> final(self).distinct(),
            old(self)@.contains_key(name@) ==> final(self).rows().len() == old(self).rows().len()
                && forall|i: int|
                0 <= i < old(self).rows().len() ==> (#[trigger] final(self).rows()[i]).0 == old(
                    self,
                ).rows()[i].0,
            !old(self)@.contains_key(name@) ==> final(self).rows() == old(self).rows().push(
                (name@, value@),
            ),
    {
        let ghost before = self.rows();
        match self.find(name.as_str()) {
            Some(i) => {
                proof {
                    lemma_map_of_update(before, i as int, value@);
                }
                let ghost entry = (name, value);
                self.entries.set(i, (name, value));
                assert(self.rows() =~= before.update(i as int, (name@, value@)));
            },
            None => {
                proof {
                    lemma_map_of_absent(before, name@);
                }
                self.entries.push((name, value));
                assert(self.rows() =~= before.push((name@, value@)));
                assert(before.push((name@, value@)).drop_last() =~= before);
            },
        }
    }
}

impl<V: Value> OrderedMap<V> {
    /// Copies the map.
    pub fn duplicate(&self) -> (r: Self)
        ensures
            r@ == self@,
            r.rows() == self.rows(),
    {
        let mut entries: Vec<(String, V)> = Vec::new();
        let mut i: usize = 0;
        while i < self.entries.len()
            invariant
                i <= self.entries@.len(),
                entries@.len() == i,
                forall|j: int|
                    0 <= j < i ==> (#[trigger] entries@[j]).0@ == self.entries@[j].0@
                        && entries@[j].1@ == self.entries@[j].1@,
            decreases self.entries@.len() - i,
        {
            entries.push((self.entries[i].0.clone(), self.entries[i].1.duplicate()));
            i += 1;
        }
        let r = OrderedMap { entries };
        assert(r.rows() =~= self.rows());
        r
    }
}

impl<V: Value> Clone for OrderedMap<V> {
    fn clone(&self) -> (r: Self)
        ensures
            r@ == self@,
            r.rows() == self.rows(),
    {
        self.duplicate()
    }
}

impl<V: Value> OrderedMap<V> {
    /// Every name of this map has the same value in the other.
    fn within(&self, other: &Self) -> (r: bool)
        ensures
            r == forall|name: Seq<char>| #[trigger]
                self@.contains_key(name) ==> other@.contains_key(name) && other@[name]
                    == self@[name],
    {
        let ghost rows = self.rows();
        let mut i: usize = 0;
        while i < self.entries.len()
            invariant
                rows == self.rows(),
                i <= rows.len(),
                forall|j: int|
                    0 <= j < i ==> other@.contains_key((#[trigger] rows[j]).0) && other@[rows[j].0]
                        == self@[rows[j].0],
            decreases rows.len() - i,
        {
            let name = &self.entries[i].0;
            proof {
                lemma_map_of_absent(rows, rows[i as int].0);
                assert(rows[i as int].0 == name@);
            }
            let fits = match (self.get(name.as_str()), other.get(name.as_str())) {
                (Some(mine), Some(theirs)) => mine.same(theirs),
                _ => false,
            };
            if !fits {
                assert(self@.contains_key(name@));
                return false;
            }
            i += 1;
        }
        proof {
            assert forall|name: Seq<char>| #[trigger] self@.contains_key(
                name,
            ) implies other@.contains_key(name) && other@[name] == self@[name] by {
                lemma_map_of_absent(rows, name);
                let j = choose|j: int| 0 <= j < rows.len() && (#[trigger] rows[j]).0 == name;
                assert(rows[j].0 == name);
            }
        }
        true
    }

    /// Reports whether two maps agree.
    pub fn same(&self, other: &Self) -> (r: bool)
        ensures
            r == (self@ == other@),
    {
        let r = self.within(other) && other.within(self);
        proof {
            if r {
                assert(self@ =~= other@);
            }
        }
        r
    }
}

impl<V: Value> PartialEqSpecImpl for OrderedMap<V> {
    open spec fn obeys_eq_spec() -> bool {
        true
    }

    open spec fn eq_spec(&self, other: &Self) -> bool {
        self@ == other@
    }
}

impl<V: Value> PartialEq for OrderedMap<V> {
    fn eq(&self, other: &Self) -> (r: bool) {
        self.same(other)
    }
}

} // verus!
