//! The class and the attributes of an element.

use crate::model::attrs_html;
use crate::model::class_html;
use crate::model::unset_effects;
use crate::ordered::attribute_entries;
use crate::ordered::find;
use crate::ordered::lemma_find_absent;
use crate::ordered::lemma_find_unique;
use crate::ordered::lemma_swap_removed_unique;
use crate::ordered::map_entry;
use crate::ordered::map_get;
use crate::ordered::map_insert;
use crate::ordered::map_len;
use crate::ordered::map_new;
use crate::ordered::map_swap_remove;
use crate::ordered::names;
use crate::ordered::swap_removed;
use crate::patching::attrs_effects;
use crate::patching::class_effects;
use crate::patching::leftover;
use crate::patching::lookup;
use crate::patching::set_effects;
use crate::patching::without;
use crate::target::Handle;
use crate::target::Target;
use indexmap::IndexMap;
use vstd::prelude::*;
use vstd::string::StringExecFns;

verus! {

/// The value of an element's class attribute.
pub struct ClassString(String);

impl View for ClassString {
    type V = Seq<char>;

    closed spec fn view(&self) -> Seq<char> {
        self.0@
    }
}

impl DeepView for ClassString {
    type V = Seq<char>;

    open spec fn deep_view(&self) -> Seq<char> {
        self@
    }
}

impl ClassString {
    /// The class `value`.
    pub fn new(value: String) -> (class: ClassString)
        ensures
            class@ == value@,
    {
        ClassString(value)
    }

    /// The class itself.
    pub fn value(&self) -> (value: &str)
        ensures
            value@ == self@,
    {
        self.0.as_str()
    }

    /// Appends ` class="..."` to `out`.
    pub fn write_html(&self, out: &mut String)
        ensures
            final(out)@ == old(out)@ + class_html(Some(self@)),
    {
        out.append(" class=\"");
        out.append(self.0.as_str());
        out.append("\"");
        assert(out@ =~= old(out)@ + class_html(Some(self@)));
    }

    /// Whether two classes are the same.
    pub fn same_as(&self, other: &ClassString) -> (same: bool)
        ensures
            same == (self@ == other@),
    {
        self.0 == other.0
    }

    /// Writes the class of `node` unless `previous` is the same class.
    pub fn patch(self, target: &mut Target, node: Handle, previous: Option<ClassString>) -> (out: ClassString)
        ensures
            out@ == self@,
            final(target)@ == old(target)@ + class_effects(previous.deep_view(), Some(self@), node),
            final(target).depth() == old(target).depth(),
            final(target).request_flag() == old(target).request_flag(),
            crate::target::numbered(old(target)@) ==> crate::target::numbered(final(target)@),
    {
        let same = match &previous {
            Some(old_class) => old_class.0 == self.0,
            None => false,
        };
        if !same {
            target.set_attribute(node, "class", self.0.as_str());
        }
        assert(target@ =~= old(target)@ + class_effects(previous.deep_view(), Some(self@), node));
        self
    }

    /// Unsets the class of `node`.
    pub fn remove(self, target: &mut Target, node: Handle)
        ensures
            final(target)@ == old(target)@ + class_effects(Some(self@), None, node),
            final(target).depth() == old(target).depth(),
            final(target).request_flag() == old(target).request_flag(),
            crate::target::numbered(old(target)@) ==> crate::target::numbered(final(target)@),
    {
        target.remove_attribute(node, "class");
        assert(target@ =~= old(target)@ + class_effects(Some(self@), None, node));
    }
}

impl PartialEq for ClassString {
    fn eq(&self, other: &ClassString) -> (same: bool) {
        self.same_as(other)
    }
}

impl vstd::std_specs::cmp::PartialEqSpecImpl for ClassString {
    open spec fn obeys_eq_spec() -> bool {
        true
    }

    open spec fn eq_spec(&self, other: &ClassString) -> bool {
        self@ == other@
    }
}

impl Eq for ClassString {

}

impl From<&str> for ClassString {
    fn from(item: &str) -> (class: ClassString)
        ensures
            class@ == item@,
    {
        ClassString(item.to_owned())
    }
}

impl vstd::std_specs::convert::FromSpecImpl<&str> for ClassString {
    open spec fn obeys_from_spec() -> bool {
        false
    }

    open spec fn from_spec(v: &str) -> ClassString {
        arbitrary()
    }
}

impl From<String> for ClassString {
    fn from(item: String) -> (class: ClassString)
        ensures
            class@ == item@,
    {
        ClassString(item)
    }
}

impl vstd::std_specs::convert::FromSpecImpl<String> for ClassString {
    open spec fn obeys_from_spec() -> bool {
        false
    }

    open spec fn from_spec(v: String) -> ClassString {
        arbitrary()
    }
}

/// Brings the class of `node` from `previous` to `new`.
pub fn patch_class(new: Option<ClassString>, target: &mut Target, node: Handle, previous: Option<ClassString>) -> (out:
    Option<ClassString>)
    ensures
        out.deep_view() == new.deep_view(),
        final(target)@ == old(target)@ + class_effects(previous.deep_view(), new.deep_view(), node),
        final(target).depth() == old(target).depth(),
        final(target).request_flag() == old(target).request_flag(),
        crate::target::numbered(old(target)@) ==> crate::target::numbered(final(target)@),
{
    match new {
        Some(class) => Some(class.patch(target, node, previous)),
        None => {
            match previous {
                Some(old_class) => old_class.remove(target, node),
                None => {
                    assert(target@ =~= old(target)@ + class_effects(None, None, node));
                },
            }
            None
        },
    }
}

/// The entries with `entry` put in as a map does it: over the entry of the
/// same name if there is one, else last.
pub open spec fn inserted(entries: Seq<(Seq<char>, Seq<char>)>, entry: (Seq<char>, Seq<char>)) -> Seq<
    (Seq<char>, Seq<char>),
> {
    match find(names(entries), entry.0) {
        Some(i) => entries.update(i, entry),
        None => entries.push(entry),
    }
}

/// The entries that a map holds once `items[..n]` were put in, first to last.
pub open spec fn collected(items: Seq<(Seq<char>, Seq<char>)>, n: int) -> Seq<(Seq<char>, Seq<char>)>
    decreases n,
{
    if n <= 0 {
        Seq::empty()
    } else {
        inserted(collected(items, n - 1), items[n - 1])
    }
}

/// The pairs of string slices as pairs of character sequences.
pub open spec fn pairs_view(items: Seq<(&str, &str)>) -> Seq<(Seq<char>, Seq<char>)> {
    Seq::new(items.len(), |i: int| (items[i].0@, items[i].1@))
}

/// Two attribute sets hold the same values under the same names, in whatever
/// order.
pub open spec fn same_entries(a: Seq<(Seq<char>, Seq<char>)>, b: Seq<(Seq<char>, Seq<char>)>) -> bool {
    &&& a.len() == b.len()
    &&& forall|i: int| 0 <= i < a.len() ==> lookup(b, (#[trigger] a[i]).0) == Some(a[i].1)
}

/// Taking a name out of a set of attributes leaves no name twice, takes
/// that name away and leaves every other name with its value.
pub proof fn lemma_without(entries: Seq<(Seq<char>, Seq<char>)>, key: Seq<char>)
    requires
        names(entries).no_duplicates(),
    ensures
        names(without(entries, key)).no_duplicates(),
        lookup(without(entries, key), key) is None,
        forall|other: Seq<char>| other != key ==> lookup(without(entries, key), other) == lookup(entries, other),
{
    let rest = without(entries, key);
    match find(names(entries), key) {
        Some(i) => {
            assert(0 <= i < entries.len() && names(entries)[i] == key);
            assert(names(rest) =~= swap_removed(names(entries), i));
            lemma_swap_removed_unique(names(entries), i);
            lemma_find_absent(names(rest), key);
            assert forall|other: Seq<char>| other != key implies lookup(rest, other) == lookup(entries, other) by {
                if names(entries).contains(other) {
                    let j = choose|j: int| 0 <= j < entries.len() && names(entries)[j] == other;
                    lemma_find_unique(names(entries), other, j);
                    let k = if j == entries.len() - 1 {
                        i
                    } else {
                        j
                    };
                    assert(names(rest)[k] == other);
                    lemma_find_unique(names(rest), other, k);
                } else {
                    lemma_find_absent(names(entries), other);
                    lemma_find_absent(names(rest), other);
                }
            }
        },
        None => {},
    }
}

/// What is left of a set of attributes holds no name twice and still holds
/// every name that was not taken, with its value.
pub proof fn lemma_leftover(old: Seq<(Seq<char>, Seq<char>)>, taken: Seq<Seq<char>>, n: int)
    requires
        names(old).no_duplicates(),
        0 <= n <= taken.len(),
    ensures
        names(leftover(old, taken, n)).no_duplicates(),
        forall|key: Seq<char>|
            (forall|i: int| 0 <= i < n ==> taken[i] != key) ==> lookup(leftover(old, taken, n), key) == lookup(
                old,
                key,
            ),
    decreases n,
{
    if n > 0 {
        lemma_leftover(old, taken, n - 1);
        lemma_without(leftover(old, taken, n - 1), taken[n - 1]);
    }
}

/// The attributes of an element: values under names, in the order in which
/// the names came, no name twice.
pub struct Attributes(IndexMap<String, String>);

impl View for Attributes {
    type V = Seq<(Seq<char>, Seq<char>)>;

    closed spec fn view(&self) -> Seq<(Seq<char>, Seq<char>)> {
        attribute_entries(self.0)
    }
}

impl DeepView for Attributes {
    type V = Seq<(Seq<char>, Seq<char>)>;

    open spec fn deep_view(&self) -> Seq<(Seq<char>, Seq<char>)> {
        self@
    }
}

impl Attributes {
    /// No name occurs twice.
    #[verifier::type_invariant]
    spec fn distinct_names(self) -> bool {
        names(attribute_entries(self.0)).no_duplicates()
    }

    /// No attributes.
    pub fn new() -> (attrs: Attributes)
        ensures
            attrs@ == Seq::<(Seq<char>, Seq<char>)>::empty(),
    {
        Attributes(map_new())
    }

    /// No name occurs twice.
    pub fn distinct(&self)
        ensures
            names(self@).no_duplicates(),
    {
        proof {
            use_type_invariant(self);
        }
    }

    /// The number of attributes.
    pub fn len(&self) -> (n: usize)
        ensures
            n == self@.len(),
    {
        map_len(&self.0)
    }

    /// The attributes with `key` set to `value`: in place where the name is
    /// there, else last.
    pub fn insert(self, key: String, value: String) -> (out: Attributes)
        ensures
            out@ == inserted(self@, (key@, value@)),
    {
        proof {
            use_type_invariant(&self);
        }
        let ghost before = self@;
        let Attributes(mut map) = self;
        let previous = map_insert(&mut map, key, value);
        proof {
            if previous is Some {
                let i = choose|i: int|
                    0 <= i < before.len() && (#[trigger] before[i]).0 == key@ && before[i].1 == previous->0@
                        && attribute_entries(map) == before.update(i, (key@, value@));
                assert(names(before)[i] == key@);
                lemma_find_unique(names(before), key@, i);
                assert(names(before.update(i, (key@, value@))) =~= names(before));
            } else {
                lemma_find_absent(names(before), key@);
                let after = before.push((key@, value@));
                assert forall|i: int, j: int|
                    0 <= i < after.len() && 0 <= j < after.len() && i != j implies names(after)[i] != names(
                    after,
                )[j] by {
                    if i < before.len() {
                        assert(names(before)[i] == names(after)[i]);
                    }
                    if j < before.len() {
                        assert(names(before)[j] == names(after)[j]);
                    }
                }
            }
        }
        Attributes(map)
    }

    /// The value under `key`, if the name is there.
    pub fn get(&self, key: &str) -> (value: Option<&String>)
        ensures
            match value {
                Some(v) => lookup(self@, key@) == Some(v@),
                None => lookup(self@, key@) is None,
            },
    {
        proof {
            use_type_invariant(self);
        }
        let value = map_get(&self.0, key);
        proof {
            match value {
                Some(v) => {
                    let i = choose|i: int|
                        0 <= i < self@.len() && (#[trigger] self@[i]).0 == key@ && self@[i].1 == v@;
                    assert(names(self@)[i] == key@);
                    lemma_find_unique(names(self@), key@, i);
                },
                None => {
                    lemma_find_absent(names(self@), key@);
                },
            }
        }
        value
    }

    /// The entry at position `i`.
    pub fn entry(&self, i: usize) -> (entry: (&String, &String))
        requires
            i < self@.len(),
        ensures
            entry.0@ == self@[i as int].0,
            entry.1@ == self@[i as int].1,
    {
        match map_entry(&self.0, i) {
            Some(entry) => entry,
            None => vstd::pervasive::unreached(),
        }
    }

    /// Appends ` name="value"` for each attribute to `out`.
    pub fn write_html(&self, out: &mut String)
        ensures
            final(out)@ == old(out)@ + attrs_html(self@),
    {
        let n = self.len();
        let mut i: usize = 0;
        assert(old(out)@ + attrs_html(self@.subrange(0, 0)) =~= old(out)@);
        while i < n
            invariant
                i <= n,
                n == self@.len(),
                out@ == old(out)@ + attrs_html(self@.subrange(0, i as int)),
            decreases n - i,
        {
            let (key, value) = self.entry(i);
            let ghost sofar = out@;
            out.append(" ");
            out.append(key.as_str());
            out.append("=\"");
            out.append(value.as_str());
            out.append("\"");
            proof {
                let next = self@.subrange(0, i + 1);
                assert(next.drop_last() =~= self@.subrange(0, i as int));
                assert(next.last() == self@[i as int]);
                assert(out@ =~= old(out)@ + attrs_html(next));
            }
            i += 1;
        }
        assert(self@.subrange(0, n as int) =~= self@);
    }

    /// Whether two attribute sets hold the same values under the same names.
    /// The order of the names does not count.
    pub fn same_as(&self, other: &Attributes) -> (same: bool)
        ensures
            same == same_entries(self@, other@),
    {
        let n = self.len();
        if n != other.len() {
            return false;
        }
        let mut i: usize = 0;
        while i < n
            invariant
                i <= n,
                n == self@.len(),
                self@.len() == other@.len(),
                forall|j: int| 0 <= j < i ==> lookup(other@, (#[trigger] self@[j]).0) == Some(self@[j].1),
            decreases n - i,
        {
            let (key, value) = self.entry(i);
            let equal = match other.get(key.as_str()) {
                Some(found) => *found == *value,
                None => false,
            };
            if !equal {
                return false;
            }
            i += 1;
        }
        true
    }

    /// Brings the attributes of `node` up to date with these. Against a
    /// previous set only what is new or differs is written, and what is gone
    /// is unset; without one everything is written.
    pub fn patch(self, target: &mut Target, node: Handle, previous: Option<Attributes>) -> (out: Attributes)
        ensures
            out@ == self@,
            final(target)@ == old(target)@ + attrs_effects(previous.deep_view(), Some(self@), node),
            final(target).depth() == old(target).depth(),
            final(target).request_flag() == old(target).request_flag(),
            crate::target::numbered(old(target)@) ==> crate::target::numbered(final(target)@),
    {
        proof {
            use_type_invariant(&self);
        }
        let n = self.len();
        let ghost before: Seq<(Seq<char>, Seq<char>)> = match previous.deep_view() {
            Some(entries) => entries,
            None => Seq::empty(),
        };
        let mut rest = match previous {
            Some(old_attrs) => {
                proof {
                    use_type_invariant(&old_attrs);
                }
                let Attributes(map) = old_attrs;
                map
            },
            None => map_new(),
        };
        let mut i: usize = 0;
        assert(target@ =~= old(target)@ + set_effects(self@, before, node, 0));
        while i < n
            invariant
                i <= n,
                n == self@.len(),
                names(self@).no_duplicates(),
                names(before).no_duplicates(),
                attribute_entries(rest) == leftover(before, names(self@), i as int),
                target@ == old(target)@ + set_effects(self@, before, node, i as int),
                target.depth() == old(target).depth(),
                target.request_flag() == old(target).request_flag(),
                crate::target::numbered(old(target)@) ==> crate::target::numbered(target@),
            decreases n - i,
        {
            let (key, value) = self.entry(i);
            let ghost held = attribute_entries(rest);
            proof {
                lemma_leftover(before, names(self@), i as int);
                assert(names(self@)[i as int] == key@);
                assert(lookup(held, key@) == lookup(before, key@));
            }
            let old_value = map_swap_remove(&mut rest, key.as_str());
            let same = match &old_value {
                Some(found) => *found == *value,
                None => false,
            };
            proof {
                if old_value is Some {
                    let j = choose|j: int|
                        0 <= j < held.len() && (#[trigger] held[j]).0 == key@ && held[j].1 == old_value->0@
                            && attribute_entries(rest) == swap_removed(held, j);
                    assert(names(held)[j] == key@);
                    lemma_find_unique(names(held), key@, j);
                } else {
                    lemma_find_absent(names(held), key@);
                }
                assert(attribute_entries(rest) == without(held, key@));
                assert(same == (lookup(before, key@) == Some(value@)));
            }
            let ghost sofar = target@;
            if !same {
                target.set_attribute(node, key.as_str(), value.as_str());
            }
            proof {
                assert(target@ =~= old(target)@ + set_effects(self@, before, node, i + 1));
            }
            i += 1;
        }
        let ghost written = target@;
        let ghost stale = attribute_entries(rest);
        let m = map_len(&rest);
        let mut j: usize = 0;
        assert(target@ =~= written + unset_effects(stale, node, 0));
        while j < m
            invariant
                j <= m,
                m == stale.len(),
                stale == attribute_entries(rest),
                target@ == written + unset_effects(stale, node, j as int),
                target.depth() == old(target).depth(),
                target.request_flag() == old(target).request_flag(),
                crate::target::numbered(old(target)@) ==> crate::target::numbered(target@),
            decreases m - j,
        {
            match map_entry(&rest, j) {
                Some((key, _)) => {
                    target.remove_attribute(node, key.as_str());
                },
                None => {},
            }
            assert(target@ =~= written + unset_effects(stale, node, j + 1));
            j += 1;
        }
        proof {
            if previous is Some {
                assert(target@ =~= old(target)@ + attrs_effects(previous.deep_view(), Some(self@), node));
            } else {
                assert(stale =~= Seq::<(Seq<char>, Seq<char>)>::empty()) by {
                    lemma_leftover_of_nothing(names(self@), n as int);
                }
                assert(target@ =~= old(target)@ + attrs_effects(previous.deep_view(), Some(self@), node));
            }
        }
        self
    }

    /// Unsets every attribute of `node`, first to last.
    pub fn remove(self, target: &mut Target, node: Handle)
        ensures
            final(target)@ == old(target)@ + attrs_effects(Some(self@), None, node),
            final(target).depth() == old(target).depth(),
            final(target).request_flag() == old(target).request_flag(),
            crate::target::numbered(old(target)@) ==> crate::target::numbered(final(target)@),
    {
        let n = self.len();
        let mut i: usize = 0;
        assert(target@ =~= old(target)@ + unset_effects(self@, node, 0));
        while i < n
            invariant
                i <= n,
                n == self@.len(),
                target@ == old(target)@ + unset_effects(self@, node, i as int),
                target.depth() == old(target).depth(),
                target.request_flag() == old(target).request_flag(),
                crate::target::numbered(old(target)@) ==> crate::target::numbered(target@),
            decreases n - i,
        {
            let (key, _) = self.entry(i);
            target.remove_attribute(node, key.as_str());
            assert(target@ =~= old(target)@ + unset_effects(self@, node, i + 1));
            i += 1;
        }
    }

    /// Takes the class out of a set of attributes: the value under `class`,
    /// if there is one, and what is left, if anything is.
    pub fn split_into_class_and_attrs(self) -> (parts: (Option<ClassString>, Option<Attributes>))
        ensures
            parts.0.deep_view() == lookup(self@, crate::patching::class_name()),
            parts.1.deep_view() == if without(self@, crate::patching::class_name()).len() == 0 {
                None
            } else {
                Some(without(self@, crate::patching::class_name()))
            },
    {
        proof {
            use_type_invariant(&self);
            lemma_without(self@, crate::patching::class_name());
        }
        let ghost before = self@;
        let Attributes(mut map) = self;
        let removed = map_swap_remove(&mut map, "class");
        proof {
            if removed is Some {
                let j = choose|j: int|
                    0 <= j < before.len() && (#[trigger] before[j]).0 == "class"@ && before[j].1 == removed->0@
                        && attribute_entries(map) == swap_removed(before, j);
                assert(names(before)[j] == "class"@);
                lemma_find_unique(names(before), "class"@, j);
            } else {
                lemma_find_absent(names(before), "class"@);
            }
        }
        let class = match removed {
            Some(value) => Some(ClassString(value)),
            None => None,
        };
        let rest = if map_len(&map) == 0 {
            None
        } else {
            Some(Attributes(map))
        };
        (class, rest)
    }
}

/// Nothing is left of nothing.
pub proof fn lemma_leftover_of_nothing(taken: Seq<Seq<char>>, n: int)
    requires
        0 <= n <= taken.len(),
    ensures
        leftover(Seq::empty(), taken, n) == Seq::<(Seq<char>, Seq<char>)>::empty(),
    decreases n,
{
    if n > 0 {
        lemma_leftover_of_nothing(taken, n - 1);
        lemma_find_absent(names(Seq::<(Seq<char>, Seq<char>)>::empty()), taken[n - 1]);
    }
}

/// Brings the attributes of `node` from `previous` to `new`.
pub fn patch_attrs(new: Option<Attributes>, target: &mut Target, node: Handle, previous: Option<Attributes>) -> (out:
    Option<Attributes>)
    ensures
        out.deep_view() == new.deep_view(),
        final(target)@ == old(target)@ + attrs_effects(previous.deep_view(), new.deep_view(), node),
        final(target).depth() == old(target).depth(),
        final(target).request_flag() == old(target).request_flag(),
        crate::target::numbered(old(target)@) ==> crate::target::numbered(final(target)@),
{
    match new {
        Some(attrs) => Some(attrs.patch(target, node, previous)),
        None => {
            match previous {
                Some(old_attrs) => old_attrs.remove(target, node),
                None => {
                    assert(target@ =~= old(target)@ + attrs_effects(None, None, node));
                },
            }
            None
        },
    }
}

impl PartialEq for Attributes {
    fn eq(&self, other: &Attributes) -> (same: bool) {
        self.same_as(other)
    }
}

impl vstd::std_specs::cmp::PartialEqSpecImpl for Attributes {
    open spec fn obeys_eq_spec() -> bool {
        true
    }

    open spec fn eq_spec(&self, other: &Attributes) -> bool {
        same_entries(self@, other@)
    }
}

impl Eq for Attributes {

}

impl<'a> From<Vec<(&'a str, &'a str)>> for Attributes {
    /// The attributes that the pairs give, put in first to last: a name that
    /// comes again keeps its place and takes the later value.
    fn from(item: Vec<(&'a str, &'a str)>) -> (attrs: Attributes)
        ensures
            attrs@ == collected(pairs_view(item@), item@.len() as int),
    {
        let mut attrs = Attributes::new();
        let n = item.len();
        let mut i: usize = 0;
        while i < n
            invariant
                i <= n,
                n == item@.len(),
                attrs@ == collected(pairs_view(item@), i as int),
            decreases n - i,
        {
            let key = item[i].0;
            let value = item[i].1;
            attrs = attrs.insert(key.to_owned(), value.to_owned());
            assert(pairs_view(item@)[i as int] == (key@, value@));
            i += 1;
        }
        attrs
    }
}

impl<'a> vstd::std_specs::convert::FromSpecImpl<Vec<(&'a str, &'a str)>> for Attributes {
    open spec fn obeys_from_spec() -> bool {
        false
    }

    open spec fn from_spec(v: Vec<(&'a str, &'a str)>) -> Attributes {
        arbitrary()
    }
}

} // verus!
