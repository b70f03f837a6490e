use vstd::prelude::*;

use crate::hosts::{groups_view, items_view, lines, list_to_text, parse, render, text_to_groups, Item, ItemView};
use crate::ip::is_ip_spec;

verus! {

/// A named section of a hosts file: its name, its text as it stands in the
/// file, and the entries read from that text.
#[derive(Clone, Debug, PartialEq, Eq)]
pub struct GroupDTO {
    pub name: String,
    pub text: String,
    pub list: Vec<Item>,
}

pub struct GroupView {
    pub name: Seq<char>,
    pub text: Seq<char>,
    pub list: Seq<ItemView>,
}

impl View for GroupDTO {
    type V = GroupView;

    open spec fn view(&self) -> GroupView {
        GroupView { name: self.name@, text: self.text@, list: items_view(self.list@) }
    }
}

/// The groups of the given hosts-file content.
pub fn get_groups(hosts_content: String) -> (r: Vec<GroupDTO>)
    ensures
        groups_view(r@) == parse(hosts_content@),
{
    text_to_groups(hosts_content.as_str())
}

/// Whether `text` is a syntactically valid IPv4 or IPv6 address.
pub fn is_ip(text: String) -> (r: bool)
    ensures
        r == is_ip_spec(text@),
{
    crate::ip::is_ip(text.as_str())
}

/// The entry lines of `list`, in order, one line per entry, written with the
/// line ending of `text`.
pub fn update_text_by_list(list: Vec<Item>, text: String) -> (r: String)
    ensures
        r@ == render(items_view(list@), text@),
        lines(r@).len() == list@.len(),
{
    list_to_text(&list, text.as_str())
}

} // verus!
