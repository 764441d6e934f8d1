//! Sets of texts kept in order.
use vstd::prelude::*;

use crate::collections::viewed;
use crate::expr_shape::{text_le, text_not_after};
use crate::text::chars_of;

verus! {

/// Different characters have different code points.
proof fn lemma_code_points(a: char, b: char)
    ensures
        (a as u32) == (b as u32) ==> a == b,
{
}

/// The order of texts is reflexive, total and antisymmetric.
pub proof fn lemma_text_total(a: Seq<char>, b: Seq<char>)
    ensures
        text_le(a, b) || text_le(b, a),
        text_le(a, b) && text_le(b, a) ==> a == b,
        a == b ==> text_le(a, b),
    decreases a.len(),
{
    if a.len() > 0 && b.len() > 0 {
        lemma_text_total(a.drop_first(), b.drop_first());
        lemma_code_points(a[0], b[0]);
        if a[0] == b[0] && a.drop_first() == b.drop_first() {
            assert(a =~= seq![a[0]] + a.drop_first());
            assert(b =~= seq![b[0]] + b.drop_first());
        }
    } else if a.len() == 0 && b.len() == 0 {
        assert(a =~= b);
    }
}

/// The order of texts is transitive.
pub proof fn lemma_text_transitive(a: Seq<char>, b: Seq<char>, c: Seq<char>)
    requires
        text_le(a, b),
        text_le(b, c),
    ensures
        text_le(a, c),
    decreases a.len(),
{
    if a.len() > 0 && b.len() > 0 && c.len() > 0 && a[0] == b[0] && b[0] == c[0] {
        lemma_text_transitive(a.drop_first(), b.drop_first(), c.drop_first());
    }
}

/// The texts stand in strictly ascending order.
pub open spec fn ascending(texts: Seq<Seq<char>>) -> bool {
    forall|i: int, j: int|
        0 <= i < j < texts.len() ==> text_le(#[trigger] texts[i], #[trigger] texts[j]) && texts[i]
            != texts[j]
}

/// The row lists the set in ascending order.
pub open spec fn lists_ascending(texts: Seq<Seq<char>>, set: Set<Seq<char>>) -> bool {
    ascending(texts) && texts.to_set() == set
}

/// There is one way to list a set in ascending order.
pub proof fn lemma_listing_unique(a: Seq<Seq<char>>, b: Seq<Seq<char>>, set: Set<Seq<char>>)
    requires
        lists_ascending(a, set),
        lists_ascending(b, set),
    ensures
        a == b,
    decreases a.len(),
{
    if a.len() == 0 {
        if b.len() > 0 {
            assert(b.to_set().contains(b[0]));
            assert(a.to_set().contains(b[0]));
        }
        assert(a =~= b);
    } else {
        assert(a.to_set().contains(a.last())) by {
            assert(a[a.len() - 1] == a.last());
        }
        assert(b.to_set().contains(a.last()));
        let j = choose|j: int| 0 <= j < b.len() && b[j] == a.last();
        assert(a.to_set().contains(b.last())) by {
            assert(b[b.len() - 1] == b.last());
            assert(b.to_set().contains(b.last()));
        }
        let i = choose|i: int| 0 <= i < a.len() && a[i] == b.last();
        assert(a.last() == b.last()) by {
            if i < a.len() - 1 {
                assert(text_le(a[i], a[a.len() - 1]) && a[i] != a[a.len() - 1]);
            }
            if j < b.len() - 1 {
                assert(text_le(b[j], b[b.len() - 1]) && b[j] != b[b.len() - 1]);
            }
            lemma_text_total(a.last(), b.last());
        }
        lemma_drop_last_set(a);
        lemma_drop_last_set(b);
        assert(ascending(a.drop_last())) by {
            assert forall|i: int, j: int| 0 <= i < j < a.drop_last().len() implies text_le(
                #[trigger] a.drop_last()[i],
                #[trigger] a.drop_last()[j],
            ) && a.drop_last()[i] != a.drop_last()[j] by {
                assert(a.drop_last()[i] == a[i] && a.drop_last()[j] == a[j]);
            }
        }
        assert(ascending(b.drop_last())) by {
            assert forall|i: int, j: int| 0 <= i < j < b.drop_last().len() implies text_le(
                #[trigger] b.drop_last()[i],
                #[trigger] b.drop_last()[j],
            ) && b.drop_last()[i] != b.drop_last()[j] by {
                assert(b.drop_last()[i] == b[i] && b.drop_last()[j] == b[j]);
            }
        }
        lemma_listing_unique(a.drop_last(), b.drop_last(), set.remove(a.last()));
        assert(a =~= a.drop_last().push(a.last()));
        assert(b =~= b.drop_last().push(b.last()));
    }
}

proof fn lemma_drop_last_set(a: Seq<Seq<char>>)
    requires
        a.len() > 0,
        ascending(a),
    ensures
        a.drop_last().to_set() == a.to_set().remove(a.last()),
{
    let shorter = a.drop_last();
    assert forall|t: Seq<char>| shorter.to_set().contains(t) == a.to_set().remove(
        a.last(),
    ).contains(t) by {
        if shorter.to_set().contains(t) {
            let i = choose|i: int| 0 <= i < shorter.len() && shorter[i] == t;
            assert(a[i] == t);
            assert(a[i] != a[a.len() - 1]);
        }
        if a.to_set().contains(t) && t != a.last() {
            let i = choose|i: int| 0 <= i < a.len() && a[i] == t;
            assert(shorter[i] == t);
        }
    }
    assert(shorter.to_set() =~= a.to_set().remove(a.last()));
}

/// A set of texts, kept in ascending order.
#[derive(Debug, PartialEq)]
pub struct TextSet {
    items: Vec<String>,
}

impl View for TextSet {
    type V = Set<Seq<char>>;

    closed spec fn view(&self) -> Set<Seq<char>> {
        viewed(self.items@).to_set()
    }
}

impl TextSet {
    /// The texts in order.
    pub closed spec fn rows(&self) -> Seq<Seq<char>> {
        viewed(self.items@)
    }

    /// The texts are in ascending order.
    pub open spec fn wf(&self) -> bool {
        lists_ascending(self.rows(), self@)
    }

    pub fn new() -> (r: Self)
        ensures
            r@ == Set::<Seq<char>>::empty(),
            r.wf(),
    {
        let r = TextSet { items: Vec::new() };
        assert(r.rows() =~= Seq::empty());
        assert(r@ =~= Set::empty());
        r
    }

    pub fn len(&self) -> (r: usize)
        ensures
            r == self.rows().len(),
    {
        self.items.len()
    }

    pub fn is_empty(&self) -> (r: bool)
        ensures
            r == (self@ == Set::<Seq<char>>::empty()),
    {
        proof {
            if self.items@.len() == 0 {
                assert(self@ =~= Set::empty());
            } else {
                assert(self.rows().to_set().contains(self.rows()[0]));
            }
        }
        self.items.len() == 0
    }

    /// The text at a place of the order.
    pub fn get(&self, i: usize) -> (r: &String)
        requires
            i < self.rows().len(),
        ensures
            r@ == self.rows()[i as int],
    {
        &self.items[i]
    }

    /// Reports whether the text is in the set.
    pub fn contains(&self, text: &str) -> (r: bool)
        ensures
            r == self@.contains(text@),
    {
        let wanted = text.to_owned();
        let mut i: usize = 0;
        while i < self.items.len()
            invariant
                i <= self.items@.len(),
                wanted@ == text@,
                forall|j: int| 0 <= j < i ==> #[trigger] self.rows()[j] != text@,
            decreases self.items@.len() - i,
        {
            if self.items[i] == wanted {
                assert(self.rows()[i as int] == text@);
                return true;
            }
            i += 1;
        }
        proof {
            if self@.contains(text@) {
                let j = choose|j: int| 0 <= j < self.rows().len() && self.rows()[j] == text@;
                assert(self.rows()[j] != text@);
            }
        }
        false
    }

    /// Adds a text at its place.
    pub fn insert(&mut self, text: String)
        requires
            old(self).wf(),
        ensures
            final(self)@ == old(self)@.insert(text@),
            final(self).wf(),
    {
        let ghost rows = self.rows();
        let ghost set = self@;
        let chars = chars_of(text.as_str());
        let mut at: usize = 0;
        while at < self.items.len() && !text_not_after(
            &chars,
            &chars_of(self.items[at].as_str()),
        )
            invariant
                rows == self.rows(),
                chars@ == text@,
                at <= rows.len(),
                *self == *old(self),
                forall|j: int| 0 <= j < at ==> !text_le(text@, #[trigger] rows[j]),
            decreases rows.len() - at,
        {
            at += 1;
        }
        if at < self.items.len() && self.items[at] == text {
            proof {
                assert(rows[at as int] == text@);
                assert(set.contains(text@));
                assert(self@ =~= set.insert(text@));
            }
            return ;
        }
        proof {
            assert(at < rows.len() ==> text_le(text@, rows[at as int]));
            lemma_inserted(rows, at as int, text@);
        }
        let ghost added = text@;
        self.items.insert(at, text);
        assert(self.rows() =~= rows.insert(at as int, added));
    }
}

proof fn lemma_inserted(rows: Seq<Seq<char>>, at: int, text: Seq<char>)
    requires
        ascending(rows),
        0 <= at <= rows.len(),
        forall|j: int| 0 <= j < at ==> !text_le(text, #[trigger] rows[j]),
        at < rows.len() ==> text_le(text, rows[at]) && rows[at] != text,
    ensures
        ascending(rows.insert(at, text)),
        rows.insert(at, text).to_set() == rows.to_set().insert(text),
{
    let after = rows.insert(at, text);
    assert forall|i: int, j: int| 0 <= i < j < after.len() implies text_le(
        #[trigger] after[i],
        #[trigger] after[j],
    ) && after[i] != after[j] by {
        if j < at {
            assert(after[i] == rows[i] && after[j] == rows[j]);
        } else if j == at {
            assert(after[i] == rows[i] && after[j] == text);
            lemma_text_total(text, rows[i]);
        } else if i > at {
            assert(after[i] == rows[i - 1] && after[j] == rows[j - 1]);
        } else if i == at {
            assert(after[i] == text && after[j] == rows[j - 1]);
            if j - 1 > at {
                assert(text_le(rows[at], rows[j - 1]));
                lemma_text_transitive(text, rows[at], rows[j - 1]);
                if text == rows[j - 1] {
                    lemma_text_total(rows[at], text);
                }
            }
        } else {
            assert(after[i] == rows[i] && after[j] == rows[j - 1]);
        }
    }
    assert forall|t: Seq<char>| after.to_set().contains(t) == rows.to_set().insert(text).contains(
        t,
    ) by {
        if after.to_set().contains(t) {
            let i = choose|i: int| 0 <= i < after.len() && after[i] == t;
            if i < at {
                assert(rows[i] == t);
            } else if i > at {
                assert(rows[i - 1] == t);
            }
        }
        assert(after[at] == text);
        if rows.to_set().contains(t) {
            let i = choose|i: int| 0 <= i < rows.len() && rows[i] == t;
            if i < at {
                assert(after[i] == t);
            } else {
                assert(after[i + 1] == t);
            }
        }
    }
    assert(after.to_set() =~= rows.to_set().insert(text));
}

impl Clone for TextSet {
    fn clone(&self) -> (r: Self)
        ensures
            r@ == self@,
            r.rows() == self.rows(),
    {
        let r = TextSet { items: crate::collections::duplicate_all(&self.items) };
        assert(r.rows() =~= self.rows());
        r
    }
}

} // verus!
