//! How contributor listings are searched, filtered and ordered in SQL.
use vstd::prelude::*;
use crate::apod::catalogue::{contains, like_escaped};
use crate::apod::model::CreditOrder;
use crate::contributor::Kind;
use crate::text::{chars_of, is_text};

verus! {

pub open spec fn credit_order_sql(o: CreditOrder) -> Seq<char> {
    match o {
        CreditOrder::Entries => "entries DESC, id ASC"@,
        CreditOrder::Latest => "last DESC, entries DESC, id ASC"@,
        CreditOrder::Name => "label COLLATE NOCASE ASC, id ASC"@,
    }
}

pub open spec fn credit_order_named(s: Seq<char>) -> Option<CreditOrder> {
    if s == "entries"@ {
        Some(CreditOrder::Entries)
    } else if s == "latest"@ {
        Some(CreditOrder::Latest)
    } else if s == "name"@ {
        Some(CreditOrder::Name)
    } else {
        None
    }
}

impl CreditOrder {
    /// The `ORDER BY` terms of this order.
    pub fn sql(self) -> (s: &'static str)
        ensures
            s@ == credit_order_sql(self),
    {
        match self {
            CreditOrder::Entries => "entries DESC, id ASC",
            CreditOrder::Latest => "last DESC, entries DESC, id ASC",
            CreditOrder::Name => "label COLLATE NOCASE ASC, id ASC",
        }
    }

    /// The order named `raw`.
    pub fn from_name(raw: &str) -> (o: Option<CreditOrder>)
        ensures
            o == credit_order_named(raw@),
    {
        let v = chars_of(raw);
        if is_text(&v, "entries") {
            Some(CreditOrder::Entries)
        } else if is_text(&v, "latest") {
            Some(CreditOrder::Latest)
        } else if is_text(&v, "name") {
            Some(CreditOrder::Name)
        } else {
            None
        }
    }
}

impl std::str::FromStr for CreditOrder {
    type Err = ();

    fn from_str(raw: &str) -> (r: Result<CreditOrder, ()>)
        ensures
            r == match credit_order_named(raw@) {
                Some(o) => Ok(o),
                None => Err::<CreditOrder, ()>(()),
            },
    {
        match CreditOrder::from_name(raw) {
            Some(o) => Ok(o),
            None => Err(()),
        }
    }
}

/// The condition of a contributor search, when there is a query.
pub fn searching(has_query: bool) -> (s: &'static str)
    ensures
        has_query ==> s@ == "WHERE (c.contributor LIKE ?1 ESCAPE '\\' OR c.name LIKE ?1 ESCAPE '\\')"@,
        !has_query ==> s@ == ""@,
{
    if has_query {
        "WHERE (c.contributor LIKE ?1 ESCAPE '\\' OR c.name LIKE ?1 ESCAPE '\\')"
    } else {
        ""
    }
}

pub open spec fn having_sql(kind: Option<Kind>) -> Seq<char> {
    match kind {
        Some(Kind::Person) => "HAVING kind = 'person'"@,
        Some(Kind::Group) => "HAVING kind = 'group'"@,
        Some(Kind::Unknown) => "HAVING kind = 'unknown'"@,
        None => ""@,
    }
}

/// The condition on a contributor's kind, when one is asked for.
pub fn having(kind: Option<Kind>) -> (s: &'static str)
    ensures
        s@ == having_sql(kind),
{
    match kind {
        Some(Kind::Person) => "HAVING kind = 'person'",
        Some(Kind::Group) => "HAVING kind = 'group'",
        Some(Kind::Unknown) => "HAVING kind = 'unknown'",
        None => "",
    }
}

/// The search pattern to bind: one matching text that contains the query, or an empty one
/// when there is no query, so that the placeholders after it keep their numbers.
pub fn like(query: Option<&str>) -> (s: String)
    ensures
        match query {
            Some(q) => s@ == seq!['%'] + like_escaped(q@) + seq!['%'],
            None => s@ == Seq::<char>::empty(),
        },
{
    match query {
        Some(q) => contains(q),
        None => String::new(),
    }
}

} // verus!
