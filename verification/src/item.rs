use vstd::prelude::*;

use crate::atom::Atom;
use crate::pretty::{chars_to_string, pretty_chars, spec_pretty};

verus! {

/// Mathematical model of an [`Item`] tree: atoms as byte sequences, lists as
/// sequences of child models, maps as sequences of key/value pairs.
#[verifier::ext_equal]
pub ghost enum ItemV {
    Atom(Seq<u8>),
    List(Seq<ItemV>),
    Dict(Seq<(ItemV, ItemV)>),
}

/// An item is an atom, a list or a map.
#[derive(Debug, Eq, PartialEq)]
pub enum Item {
    Atom(Atom),
    List(List),
    Dict(Dict),
}

/// An ordered, possibly empty sequence of items. The empty list is the nil
/// value of the whole [`Item`] type.
#[derive(Debug, Eq, PartialEq)]
pub struct List(pub Vec<Item>);

/// An ordered sequence of key/value pairs. Insertion order is kept and
/// duplicate keys may coexist; consumers decide their meaning.
#[derive(Debug, Eq, PartialEq)]
pub struct Dict(pub Vec<(Item, Item)>);

/// Model of a single item.
pub open spec fn view_item(v: Item) -> ItemV
    decreases v,
{
    match v {
        Item::Atom(a) => ItemV::Atom(a@),
        Item::List(l) => ItemV::List(view_items(l.0@)),
        Item::Dict(m) => ItemV::Dict(view_entries(m.0@)),
    }
}

/// Model of a sequence of items, element by element.
pub open spec fn view_items(s: Seq<Item>) -> Seq<ItemV>
    decreases s,
{
    if s.len() == 0 {
        seq![]
    } else {
        seq![view_item(s[0])] + view_items(s.drop_first())
    }
}

/// Model of a sequence of key/value entries, entry by entry.
pub open spec fn view_entries(s: Seq<(Item, Item)>) -> Seq<(ItemV, ItemV)>
    decreases s,
{
    if s.len() == 0 {
        seq![]
    } else {
        seq![(view_item(s[0].0), view_item(s[0].1))] + view_entries(s.drop_first())
    }
}

pub broadcast proof fn lemma_view_items_index(s: Seq<Item>)
    ensures
        (#[trigger] view_items(s)).len() == s.len(),
        forall|i: int| 0 <= i < s.len() ==> view_items(s)[i] == view_item(s[i]),
    decreases s,
{
    if s.len() > 0 {
        lemma_view_items_index(s.drop_first());
    }
}

pub broadcast proof fn lemma_view_entries_index(s: Seq<(Item, Item)>)
    ensures
        (#[trigger] view_entries(s)).len() == s.len(),
        forall|i: int|
            0 <= i < s.len() ==> view_entries(s)[i] == (
            view_item(s[i].0),
            view_item(s[i].1),
            ),
    decreases s,
{
    if s.len() > 0 {
        lemma_view_entries_index(s.drop_first());
    }
}

pub broadcast proof fn lemma_view_items_push(s: Seq<Item>, v: Item)
    ensures
        #[trigger] view_items(s.push(v)) == view_items(s).push(view_item(v)),
    decreases s,
{
    lemma_view_items_index(s.push(v));
    lemma_view_items_index(s);
    assert(view_items(s.push(v)) =~= view_items(s).push(view_item(v)));
}

pub broadcast proof fn lemma_view_entries_push(s: Seq<(Item, Item)>, k: Item, v: Item)
    ensures
        #[trigger] view_entries(s.push((k, v))) == view_entries(s).push(
            (view_item(k), view_item(v)),
        ),
{
    lemma_view_entries_index(s.push((k, v)));
    lemma_view_entries_index(s);
    assert(view_entries(s.push((k, v))) =~= view_entries(s).push((view_item(k), view_item(v))));
}

impl View for Item {
    type V = ItemV;

    open spec fn view(&self) -> ItemV {
        view_item(*self)
    }
}

impl View for List {
    type V = Seq<ItemV>;

    open spec fn view(&self) -> Seq<ItemV> {
        view_items(self.0@)
    }
}

impl View for Dict {
    type V = Seq<(ItemV, ItemV)>;

    open spec fn view(&self) -> Seq<(ItemV, ItemV)> {
        view_entries(self.0@)
    }
}

/// True when an item model holds no contents: an empty atom, list or map.
pub open spec fn item_is_empty(v: ItemV) -> bool {
    match v {
        ItemV::Atom(s) => s.len() == 0,
        ItemV::List(l) => l.len() == 0,
        ItemV::Dict(m) => m.len() == 0,
    }
}

impl Clone for Item {
    fn clone(&self) -> (r: Self)
        ensures
            r@ == self@,
        decreases *self,
    {
        match self {
            Item::Atom(a) => Item::Atom(a.clone()),
            Item::List(l) => Item::List(List(clone_items(&l.0))),
            Item::Dict(m) => Item::Dict(Dict(clone_entries(&m.0))),
        }
    }
}

impl Clone for List {
    fn clone(&self) -> (r: Self)
        ensures
            r@ == self@,
    {
        List(clone_items(&self.0))
    }
}

impl Clone for Dict {
    fn clone(&self) -> (r: Self)
        ensures
            r@ == self@,
    {
        Dict(clone_entries(&self.0))
    }
}

fn clone_items(v: &Vec<Item>) -> (r: Vec<Item>)
    ensures
        view_items(r@) == view_items(v@),
        r@.len() == v@.len(),
    decreases v@,
{
    broadcast use lemma_view_items_index;

    let mut r: Vec<Item> = Vec::new();
    let n = v.len();
    for i in 0..n
        invariant
            n == v@.len(),
            r@.len() == i,
            forall|j: int| 0 <= j < i ==> view_item(r@[j]) == view_item(v@[j]),
        decreases n - i,
    {
        proof {
            assert(decreases_to!(v@ => v@[i as int]));
        }
        r.push(v[i].clone());
    }
    proof {
        assert(view_items(r@) =~= view_items(v@));
    }
    r
}

fn clone_entries(v: &Vec<(Item, Item)>) -> (r: Vec<(Item, Item)>)
    ensures
        view_entries(r@) == view_entries(v@),
        r@.len() == v@.len(),
    decreases v@,
{
    broadcast use lemma_view_entries_index;

    let mut r: Vec<(Item, Item)> = Vec::new();
    let n = v.len();
    for i in 0..n
        invariant
            n == v@.len(),
            r@.len() == i,
            forall|j: int|
                0 <= j < i ==> view_item(r@[j].0) == view_item(v@[j].0) && view_item(r@[j].1)
                    == view_item(v@[j].1),
        decreases n - i,
    {
        proof {
            assert(decreases_to!(v@ => v@[i as int]));
            assert(decreases_to!(v@[i as int] => v@[i as int].0));
        }
        let e = &v[i];
        r.push((e.0.clone(), e.1.clone()));
    }
    proof {
        assert(view_entries(r@) =~= view_entries(v@));
    }
    r
}

impl Item {
    /// Build an atom item from a byte slice.
    pub fn new_atom(atom: &[u8]) -> (r: Self)
        ensures
            r@ == ItemV::Atom(atom@),
    {
        Item::Atom(Atom::new(atom))
    }

    /// Build a list item from a vector of elements.
    pub fn new_list(list: Vec<Item>) -> (r: Self)
        ensures
            r == Item::List(List(list)),
    {
        Item::List(List(list))
    }

    /// Build a map item from a vector of key/value entries.
    pub fn new_map(map: Vec<(Item, Item)>) -> (r: Self)
        ensures
            r == Item::Dict(Dict(map)),
    {
        Item::Dict(Dict(map))
    }

    /// The nil value: the empty list.
    pub fn nil() -> (r: Item)
        ensures
            r@ == ItemV::List(Seq::<ItemV>::empty()),
    {
        Item::List(List::nil())
    }

    /// True when the item holds no contents.
    pub fn is_empty(&self) -> (r: bool)
        ensures
            r == item_is_empty(self@),
    {
        match self {
            Item::Atom(atom) => atom.is_empty(),
            Item::List(list) => list.is_empty(),
            Item::Dict(map) => map.is_empty(),
        }
    }

    /// True when the item is an atom.
    pub fn is_atom(&self) -> (r: bool)
        ensures
            r == (self@ is Atom),
    {
        matches!(self, Item::Atom(_))
    }

    /// True when the item is a list.
    pub fn is_list(&self) -> (r: bool)
        ensures
            r == (self@ is List),
    {
        matches!(self, Item::List(_))
    }

    /// True when the item is a map.
    pub fn is_map(&self) -> (r: bool)
        ensures
            r == (self@ is Dict),
    {
        matches!(self, Item::Dict(_))
    }
}

impl List {
    /// Build a list from a vector of items.
    pub fn new(list: Vec<Item>) -> (r: Self)
        ensures
            r == List(list),
    {
        List(list)
    }

    /// The empty list.
    pub fn nil() -> (r: Self)
        ensures
            r@ == Seq::<ItemV>::empty(),
    {
        List(Vec::new())
    }

    /// The first element, or nil when the list is empty.
    pub fn first(&self) -> (r: Item)
        ensures
            r@ == if self@.len() == 0 {
                ItemV::List(Seq::<ItemV>::empty())
            } else {
                self@[0]
            },
    {
        broadcast use lemma_view_items_index;

        if self.0.len() == 0 {
            Item::nil()
        } else {
            self.0[0].clone()
        }
    }

    /// The elements after the first, or nil when the list is empty.
    pub fn tail(&self) -> (r: List)
        ensures
            r@ == if self@.len() == 0 {
                Seq::<ItemV>::empty()
            } else {
                self@.drop_first()
            },
    {
        broadcast use lemma_view_items_index;

        let mut r: Vec<Item> = Vec::new();
        if self.0.len() == 0 {
            return List(r);
        }
        let n = self.0.len();
        for i in 1..n
            invariant
                n == self.0@.len(),
                1 <= i <= n,
                r@.len() == i - 1,
                forall|j: int| 0 <= j < i - 1 ==> view_item(r@[j]) == view_item(self.0@[j + 1]),
            decreases n - i,
        {
            r.push(self.0[i].clone());
        }
        proof {
            lemma_view_items_index(r@);
            assert(view_items(r@) =~= view_items(self.0@).drop_first());
        }
        List(r)
    }

    /// Append one item at the end.
    pub fn push(&mut self, item: Item)
        ensures
            final(self)@ == old(self)@.push(item@),
    {
        proof {
            lemma_view_items_push(self.0@, item);
        }
        self.0.push(item);
    }

    /// True when the list has no elements.
    pub fn is_empty(&self) -> (r: bool)
        ensures
            r == (self@.len() == 0),
    {
        proof {
            lemma_view_items_index(self.0@);
        }
        self.0.len() == 0
    }

    /// The number of elements.
    pub fn len(&self) -> (r: usize)
        ensures
            r == self@.len(),
    {
        proof {
            lemma_view_items_index(self.0@);
        }
        self.0.len()
    }

    /// The element at a given position.
    pub fn get(&self, i: usize) -> (r: &Item)
        requires
            i < self@.len(),
        ensures
            r@ == self@[i as int],
    {
        proof {
            lemma_view_items_index(self.0@);
        }
        &self.0[i]
    }
}

impl Dict {
    /// Build a map from a vector of key/value entries.
    pub fn new(map: Vec<(Item, Item)>) -> (r: Self)
        ensures
            r == Dict(map),
    {
        Dict(map)
    }

    /// Append one key/value entry at the end.
    pub fn push(&mut self, key: Item, value: Item)
        ensures
            final(self)@ == old(self)@.push((key@, value@)),
    {
        proof {
            lemma_view_entries_push(self.0@, key, value);
        }
        self.0.push((key, value));
    }

    /// True when the map has no entries.
    pub fn is_empty(&self) -> (r: bool)
        ensures
            r == (self@.len() == 0),
    {
        proof {
            lemma_view_entries_index(self.0@);
        }
        self.0.len() == 0
    }

    /// The number of entries.
    pub fn len(&self) -> (r: usize)
        ensures
            r == self@.len(),
    {
        proof {
            lemma_view_entries_index(self.0@);
        }
        self.0.len()
    }

    /// The entry at a given position.
    pub fn get(&self, i: usize) -> (r: &(Item, Item))
        requires
            i < self@.len(),
        ensures
            (r.0@, r.1@) == self@[i as int],
    {
        proof {
            lemma_view_entries_index(self.0@);
        }
        &self.0[i]
    }
}


// ---------------------------------------------------------------------------
// Rendering items as text
// ---------------------------------------------------------------------------

/// The display text of an item model at a given width: an atom renders as
/// its escaped (possibly shortened) text, a list as its space-joined
/// elements in parentheses, a map as space-joined `key: value` pairs in
/// parentheses.
pub open spec fn spec_format(v: ItemV, width: int) -> Seq<char>
    decreases v,
{
    match v {
        ItemV::Atom(s) => spec_pretty(s, width),
        ItemV::List(l) => seq!['('] + spec_format_items(l, width) + seq![')'],
        ItemV::Dict(m) => seq!['('] + spec_format_entries(m, width) + seq![')'],
    }
}

/// Space-joined renderings of list elements.
pub open spec fn spec_format_items(l: Seq<ItemV>, width: int) -> Seq<char>
    decreases l,
{
    if l.len() == 0 {
        seq![]
    } else {
        spec_format(l[0], width) + spec_format_items_rest(l.drop_first(), width)
    }
}

/// The elements after the first, each preceded by one space.
pub open spec fn spec_format_items_rest(l: Seq<ItemV>, width: int) -> Seq<char>
    decreases l,
{
    if l.len() == 0 {
        seq![]
    } else {
        seq![' '] + spec_format(l[0], width) + spec_format_items_rest(l.drop_first(), width)
    }
}

/// One `key: value` pair.
pub open spec fn spec_format_entry(e: (ItemV, ItemV), width: int) -> Seq<char>
    decreases e,
{
    spec_format(e.0, width) + seq![':', ' '] + spec_format(e.1, width)
}

/// Space-joined renderings of map entries.
pub open spec fn spec_format_entries(m: Seq<(ItemV, ItemV)>, width: int) -> Seq<char>
    decreases m,
{
    if m.len() == 0 {
        seq![]
    } else {
        spec_format_entry(m[0], width) + spec_format_entries_rest(m.drop_first(), width)
    }
}

/// The entries after the first, each preceded by one space.
pub open spec fn spec_format_entries_rest(m: Seq<(ItemV, ItemV)>, width: int) -> Seq<char>
    decreases m,
{
    if m.len() == 0 {
        seq![]
    } else {
        seq![' '] + spec_format_entry(m[0], width) + spec_format_entries_rest(
            m.drop_first(),
            width,
        )
    }
}

fn fmt_item(v: &Item, width: usize, out: &mut Vec<char>)
    ensures
        final(out)@ == old(out)@ + spec_format(v@, width as int),
    decreases *v,
{
    match v {
        Item::Atom(a) => {
            let mut chars = pretty_chars(a.0.as_slice(), width);
            out.append(&mut chars);
        },
        Item::List(l) => {
            proof {
                assert(decreases_to!(*v => l.0@));
            }
            out.push('(');
            fmt_items(&l.0, width, out);
            out.push(')');
            proof {
                assert(out@ =~= old(out)@ + spec_format(v@, width as int));
            }
        },
        Item::Dict(m) => {
            proof {
                assert(decreases_to!(*v => m.0@));
            }
            out.push('(');
            fmt_entries(&m.0, width, out);
            out.push(')');
            proof {
                assert(out@ =~= old(out)@ + spec_format(v@, width as int));
            }
        },
    }
}

fn fmt_items(l: &Vec<Item>, width: usize, out: &mut Vec<char>)
    ensures
        final(out)@ == old(out)@ + spec_format_items(view_items(l@), width as int),
    decreases l@,
{
    broadcast use lemma_view_items_index;

    let n = l.len();
    let ghost vs = view_items(l@);
    if n == 0 {
        proof {
            assert(out@ =~= old(out)@ + spec_format_items(vs, width as int));
        }
        return ;
    }
    proof {
        assert(decreases_to!(l@ => l@[0]));
    }
    fmt_item(&l[0], width, out);
    let mut i: usize = 1;
    proof {
        assert(vs.skip(1) =~= vs.drop_first());
        assert(out@ + spec_format_items_rest(vs.skip(1), width as int) =~= old(out)@
            + spec_format_items(vs, width as int));
    }
    while i < n
        invariant
            n == l@.len(),
            vs == view_items(l@),
            vs.len() == n,
            1 <= i <= n,
            out@ + spec_format_items_rest(vs.skip(i as int), width as int) == old(out)@
                + spec_format_items(vs, width as int),
        decreases n - i,
    {
        broadcast use lemma_view_items_index;

        proof {
            assert(decreases_to!(l@ => l@[i as int]));
            assert(vs.skip(i as int)[0] == vs[i as int]);
            assert(vs.skip(i as int).drop_first() =~= vs.skip(i + 1));
        }
        out.push(' ');
        fmt_item(&l[i], width, out);
        proof {
            assert(out@ + spec_format_items_rest(vs.skip(i + 1), width as int) =~= old(out)@
                + spec_format_items(vs, width as int));
        }
        i = i + 1;
    }
    proof {
        assert(spec_format_items_rest(vs.skip(n as int), width as int) =~= Seq::<char>::empty());
        assert(out@ =~= old(out)@ + spec_format_items(vs, width as int));
    }
}

fn fmt_entries(m: &Vec<(Item, Item)>, width: usize, out: &mut Vec<char>)
    ensures
        final(out)@ == old(out)@ + spec_format_entries(view_entries(m@), width as int),
    decreases m@,
{
    broadcast use lemma_view_entries_index;

    let n = m.len();
    let ghost vs = view_entries(m@);
    if n == 0 {
        proof {
            assert(out@ =~= old(out)@ + spec_format_entries(vs, width as int));
        }
        return ;
    }
    fmt_entry(&m[0], width, out);
    let mut i: usize = 1;
    proof {
        assert(vs.skip(1) =~= vs.drop_first());
        assert(out@ + spec_format_entries_rest(vs.skip(1), width as int) =~= old(out)@
            + spec_format_entries(vs, width as int));
    }
    while i < n
        invariant
            n == m@.len(),
            vs == view_entries(m@),
            vs.len() == n,
            1 <= i <= n,
            out@ + spec_format_entries_rest(vs.skip(i as int), width as int) == old(out)@
                + spec_format_entries(vs, width as int),
        decreases n - i,
    {
        broadcast use lemma_view_entries_index;

        proof {
            assert(vs.skip(i as int)[0] == vs[i as int]);
            assert(vs.skip(i as int).drop_first() =~= vs.skip(i + 1));
        }
        out.push(' ');
        fmt_entry(&m[i], width, out);
        proof {
            assert(out@ + spec_format_entries_rest(vs.skip(i + 1), width as int) =~= old(out)@
                + spec_format_entries(vs, width as int));
        }
        i = i + 1;
    }
    proof {
        assert(spec_format_entries_rest(vs.skip(n as int), width as int) =~= Seq::<char>::empty());
        assert(out@ =~= old(out)@ + spec_format_entries(vs, width as int));
    }
}

fn fmt_entry(e: &(Item, Item), width: usize, out: &mut Vec<char>)
    ensures
        final(out)@ == old(out)@ + spec_format_entry((e.0@, e.1@), width as int),
    decreases *e,
{
    proof {
        assert(decreases_to!(*e => e.0));
        assert(decreases_to!(*e => e.1));
    }
    fmt_item(&e.0, width, out);
    out.push(':');
    out.push(' ');
    fmt_item(&e.1, width, out);
    proof {
        assert(out@ =~= old(out)@ + spec_format_entry((e.0@, e.1@), width as int));
    }
}

impl Item {
    /// Render the item as bounded-width display text.
    pub fn format(&self, width: usize) -> (r: String)
        ensures
            r@ == spec_format(self@, width as int),
    {
        let mut out: Vec<char> = Vec::new();
        fmt_item(self, width, &mut out);
        chars_to_string(out)
    }
}

impl List {
    /// Render the list as bounded-width display text.
    pub fn format(&self, width: usize) -> (r: String)
        ensures
            r@ == spec_format(ItemV::List(self@), width as int),
    {
        let mut out: Vec<char> = Vec::new();
        out.push('(');
        fmt_items(&self.0, width, &mut out);
        out.push(')');
        proof {
            assert(out@ =~= spec_format(ItemV::List(self@), width as int));
        }
        chars_to_string(out)
    }
}

impl Dict {
    /// Render the map as bounded-width display text.
    pub fn format(&self, width: usize) -> (r: String)
        ensures
            r@ == spec_format(ItemV::Dict(self@), width as int),
    {
        let mut out: Vec<char> = Vec::new();
        out.push('(');
        fmt_entries(&self.0, width, &mut out);
        out.push(')');
        proof {
            assert(out@ =~= spec_format(ItemV::Dict(self@), width as int));
        }
        chars_to_string(out)
    }
}

} // verus!
