use vstd::prelude::*;

use crate::item::{item_is_empty, Item, ItemV, List};

verus! {

/// The first element of a list model, or nil when it is empty.
pub open spec fn list_first(l: Seq<ItemV>) -> ItemV {
    if l.len() == 0 {
        ItemV::List(Seq::empty())
    } else {
        l[0]
    }
}

/// The elements after the first, or the empty sequence.
pub open spec fn list_tail(l: Seq<ItemV>) -> Seq<ItemV> {
    if l.len() == 0 {
        Seq::empty()
    } else {
        l.drop_first()
    }
}

/// The `quote` primitive: the argument list itself, unevaluated.
pub fn prim_quote(args: &List) -> (r: Item)
    ensures
        r@ == ItemV::List(args@),
{
    Item::List(args.clone())
}

/// The `first` primitive: the first argument, or nil.
pub fn prim_first(args: &List) -> (r: Item)
    ensures
        r@ == list_first(args@),
{
    args.first()
}

/// The `tail` primitive: the arguments after the first, as a list.
pub fn prim_tail(args: &List) -> (r: Item)
    ensures
        r@ == ItemV::List(list_tail(args@)),
{
    Item::List(args.tail())
}

/// The `if` primitive: the second argument when the first is non-empty,
/// else the third; missing arguments read as nil.
pub fn prim_if(args: &List) -> (r: Item)
    ensures
        r@ == if item_is_empty(list_first(args@)) {
            list_first(list_tail(list_tail(args@)))
        } else {
            list_first(list_tail(args@))
        },
{
    if args.first().is_empty() {
        args.tail().tail().first()
    } else {
        args.tail().first()
    }
}

} // verus!
