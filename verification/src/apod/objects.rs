//! How catalogued-object listings are searched and ordered in SQL.
use vstd::prelude::*;
use crate::apod::catalogue::{contains, like_escaped};
use crate::apod::model::ObjectOrder;
use crate::text::{chars_of, is_text, push_str};

verus! {

pub open spec fn object_order_sql(o: ObjectOrder) -> Seq<char> {
    match o {
        ObjectOrder::Entries => "entries DESC, id ASC"@,
        ObjectOrder::Latest => "last DESC, entries DESC, id ASC"@,
        ObjectOrder::Designation => "catalog ASC, number ASC"@,
    }
}

pub open spec fn object_order_named(s: Seq<char>) -> Option<ObjectOrder> {
    if s == "entries"@ {
        Some(ObjectOrder::Entries)
    } else if s == "latest"@ {
        Some(ObjectOrder::Latest)
    } else if s == "designation"@ {
        Some(ObjectOrder::Designation)
    } else {
        None
    }
}

impl ObjectOrder {
    /// The `ORDER BY` terms of this order.
    pub fn sql(self) -> (s: &'static str)
        ensures
            s@ == object_order_sql(self),
    {
        match self {
            ObjectOrder::Entries => "entries DESC, id ASC",
            ObjectOrder::Latest => "last DESC, entries DESC, id ASC",
            ObjectOrder::Designation => "catalog ASC, number ASC",
        }
    }

    /// The order named `raw`.
    pub fn from_name(raw: &str) -> (o: Option<ObjectOrder>)
        ensures
            o == object_order_named(raw@),
    {
        let v = chars_of(raw);
        if is_text(&v, "entries") {
            Some(ObjectOrder::Entries)
        } else if is_text(&v, "latest") {
            Some(ObjectOrder::Latest)
        } else if is_text(&v, "designation") {
            Some(ObjectOrder::Designation)
        } else {
            None
        }
    }
}

impl std::str::FromStr for ObjectOrder {
    type Err = ();

    fn from_str(raw: &str) -> (r: Result<ObjectOrder, ()>)
        ensures
            r == match object_order_named(raw@) {
                Some(o) => Ok(o),
                None => Err::<ObjectOrder, ()>(()),
            },
    {
        match ObjectOrder::from_name(raw) {
            Some(o) => Ok(o),
            None => Err(()),
        }
    }
}

pub open spec fn object_where(has_query: bool, has_catalog: bool) -> Seq<char> {
    if has_query && has_catalog {
        "WHERE (object LIKE ?1 ESCAPE '\\' OR name LIKE ?1 ESCAPE '\\') AND catalog = ?2"@
    } else if has_query {
        "WHERE (object LIKE ?1 ESCAPE '\\' OR name LIKE ?1 ESCAPE '\\')"@
    } else if has_catalog {
        "WHERE catalog = ?2"@
    } else {
        ""@
    }
}

/// The condition on an object listing: a search, a catalogue, both or neither.
pub fn where_clause(has_query: bool, has_catalog: bool) -> (s: &'static str)
    ensures
        s@ == object_where(has_query, has_catalog),
{
    if has_query && has_catalog {
        "WHERE (object LIKE ?1 ESCAPE '\\' OR name LIKE ?1 ESCAPE '\\') AND catalog = ?2"
    } else if has_query {
        "WHERE (object LIKE ?1 ESCAPE '\\' OR name LIKE ?1 ESCAPE '\\')"
    } else if has_catalog {
        "WHERE catalog = ?2"
    } else {
        ""
    }
}

/// The condition restricting entries to those naming a matching object; empty when nothing
/// restricts them.
pub fn matching_objects(has_query: bool, has_catalog: bool) -> (s: String)
    ensures
        !has_query && !has_catalog ==> s@ == Seq::<char>::empty(),
        has_query || has_catalog ==> s@ == "WHERE object IN (SELECT object FROM entry_objects "@
            + object_where(has_query, has_catalog) + ")"@,
{
    let mut s = String::new();
    if !has_query && !has_catalog {
        return s;
    }
    push_str(&mut s, "WHERE object IN (SELECT object FROM entry_objects ");
    push_str(&mut s, where_clause(has_query, has_catalog));
    push_str(&mut s, ")");
    s
}

/// The search pattern to bind, empty when there is no query.
pub fn like(query: Option<&str>) -> (s: String)
    ensures
        match query {
            Some(q) => s@ == seq!['%'] + like_escaped(q@) + seq!['%'],
            None => s@ == Seq::<char>::empty(),
        },
{
    match query {
        Some(q) => contains(q),
        None => String::new(),
    }
}

} // verus!
