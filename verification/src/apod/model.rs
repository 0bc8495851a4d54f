//! The shapes the archive's readers hand back.
use vstd::prelude::*;
use crate::date::ApodDate;
use crate::entry::ApodSummary;
use crate::media::{KindFilter, Media};

verus! {

/// What narrows a listing of entries.
#[derive(Debug, Default)]
pub struct Filters {
    pub from: Option<ApodDate>,
    pub to: Option<ApodDate>,
    pub kind: Option<KindFilter>,
    pub copyright: Option<bool>,
}

impl Filters {
    /// Whether nothing narrows the listing.
    pub fn is_empty(&self) -> (b: bool)
        ensures
            b == (self.from is None && self.to is None && self.kind is None
                && self.copyright is None),
    {
        self.from.is_none() && self.to.is_none() && self.kind.is_none() && self.copyright.is_none()
    }
}

/// Which way a listing runs.
#[derive(Debug, Clone, Copy, PartialEq, Eq, Structural)]
pub enum Order {
    Asc,
    Desc,
}

/// One page of a listing and where the next one starts.
#[derive(Debug)]
pub struct Page<T> {
    pub items: Vec<T>,
    pub next_cursor: Option<ApodDate>,
}

/// The hits of a search and how many there are in all.
#[derive(Debug)]
pub struct SearchResults {
    pub items: Vec<crate::entry::SearchHit>,
    pub total: i64,
}

/// A listing and how long it is in all.
#[derive(Debug)]
pub struct Listing<T> {
    pub items: Vec<T>,
    pub total: i64,
}

/// How many pictures ran more than once, and which ran most.
#[derive(Debug, Default)]
pub struct PictureSummary {
    pub hashed: i64,
    pub pictures: i64,
    pub entries: i64,
    pub most_shown: Option<ApodDate>,
    pub most_shown_times: i64,
}

/// How many entries have one kind of media.
#[derive(Debug)]
pub struct KindCount {
    pub kind: String,
    pub count: i64,
}

/// How many entries have a length in words from `from` up to `to`.
#[derive(Debug)]
pub struct LengthBucket {
    pub from: i64,
    pub to: Option<i64>,
    pub entries: i64,
}

/// One entry and its length in words.
#[derive(Debug)]
pub struct EntryLength {
    pub date: ApodDate,
    pub title: String,
    pub word_count: i64,
}

/// How many outside resources the archive links to.
#[derive(Debug, Default)]
pub struct ResourceSummary {
    pub resources: i64,
    pub hosts: i64,
    pub references: i64,
    pub referenced_once: i64,
}

/// How many entries each month has.
#[derive(Debug)]
pub struct Coverage {
    pub months: Vec<MonthCount>,
}

#[derive(Debug)]
pub struct MonthCount {
    pub year: i32,
    pub month: u32,
    pub entries: i64,
}

/// One outside resource the archive links to.
#[derive(Debug)]
pub struct Resource {
    pub id: i64,
    pub url: String,
    pub key: String,
    pub host: String,
    pub label: Option<String>,
    pub refs: i64,
    pub entries: i64,
    pub credited: i64,
    pub first: Option<ApodDate>,
    pub last: Option<ApodDate>,
}

/// What narrows a listing of resources.
#[derive(Debug, Clone, Default)]
pub struct ResourceFilters {
    pub query: Option<String>,
    pub host: Option<String>,
    pub min_refs: Option<i64>,
    pub credited: Option<bool>,
}

/// How resources are listed.
#[derive(Debug, Clone, Copy, PartialEq, Eq, Structural)]
pub enum ResourceOrder {
    Refs,
    Entries,
    First,
    Last,
    Label,
    Address,
}

/// A resource and the entries that link to it.
#[derive(Debug)]
pub struct ResourceRefs {
    pub resource: Resource,
    pub items: Vec<ResourceRef>,
    pub total: i64,
    pub anchors: Vec<AnchorCount>,
}

/// How many entries link with one anchor text.
#[derive(Debug)]
pub struct AnchorCount {
    pub anchor: String,
    pub entries: i64,
}

/// One picture that ran on several dates.
#[derive(Debug)]
pub struct Picture {
    pub id: ApodDate,
    pub title: String,
    pub media: Media,
    pub appearances: i64,
    pub first: ApodDate,
    pub last: ApodDate,
    pub titles: i64,
    pub span_days: i64,
}

/// What narrows a listing of pictures.
#[derive(Debug, Clone, Default)]
pub struct PictureFilters {
    pub query: Option<String>,
    pub min_appearances: Option<i64>,
    pub retitled: Option<bool>,
}

/// How pictures are listed.
#[derive(Debug, Clone, Copy, PartialEq, Eq, Structural)]
pub enum PictureOrder {
    Appearances,
    First,
    Last,
    Span,
    Title,
}

/// A picture and every time it ran.
#[derive(Debug)]
pub struct PictureAppearances {
    pub picture: Picture,
    pub items: Vec<Appearance>,
}

/// One time a picture ran, and what changed since the time before.
#[derive(Debug)]
pub struct Appearance {
    pub entry: ApodSummary,
    pub changed: Changed,
    pub since_previous_days: Option<i64>,
}

/// What changed between two runs of one picture.
#[derive(Debug, Default, PartialEq, Eq)]
pub struct Changed {
    pub title: bool,
    pub explanation: bool,
    pub credit: bool,
    pub file: bool,
}

impl Changed {
    /// Whether anything changed.
    pub fn any(&self) -> (b: bool)
        ensures
            b == (self.title || self.explanation || self.credit || self.file),
    {
        self.title || self.explanation || self.credit || self.file
    }
}

/// An entry that links to a resource, with the anchor text it used.
#[derive(Debug)]
pub struct ResourceRef {
    pub entry: ApodSummary,
    pub anchor: String,
    pub in_credit: bool,
    pub count: i64,
}

/// How many resources one host has.
#[derive(Debug)]
pub struct HostCount {
    pub host: String,
    pub resources: i64,
    pub refs: i64,
}

/// One word of the archive and how often it is used.
#[derive(Debug)]
pub struct Word {
    pub word: String,
    pub total: i64,
    pub entries: i64,
}

/// What narrows a listing of words.
#[derive(Debug, Clone, Default)]
pub struct WordFilters {
    pub query: Option<String>,
    pub min_total: Option<i64>,
    pub max_total: Option<i64>,
}

/// How words are listed.
#[derive(Debug, Clone, Copy, PartialEq, Eq, Structural)]
pub enum WordOrder {
    Total,
    Entries,
    Alphabetical,
}

/// One word, where it first and last ran, and its use by year.
#[derive(Debug)]
pub struct WordUse {
    pub word: Word,
    pub first: Option<ApodDate>,
    pub last: Option<ApodDate>,
    pub by_year: Vec<YearCount>,
    pub top_entries: Vec<WordEntry>,
}

#[derive(Debug)]
pub struct YearCount {
    pub year: i32,
    pub total: i64,
    pub entries: i64,
}

/// An entry that uses a word, and how often.
#[derive(Debug)]
pub struct WordEntry {
    pub date: ApodDate,
    pub title: String,
    pub count: i64,
}

/// A word puzzle made of an entry: its title and text with some words held back.
#[derive(Debug)]
pub struct Cloze {
    pub salt: String,
    pub title: Vec<ClozePiece>,
    pub text: Vec<ClozePiece>,
    pub hidden: usize,
    pub distinct: usize,
}

/// Text shown as it is, or a word held back as its hash and length.
#[derive(Debug, Clone, PartialEq, Eq)]
pub enum ClozePiece {
    Shown { s: String },
    Hidden { h: String, n: usize },
}

/// How contributors are listed.
#[derive(Debug, Clone, Copy, PartialEq, Eq, Structural)]
pub enum CreditOrder {
    Entries,
    Latest,
    Name,
}

/// How catalogued objects are listed.
#[derive(Debug, Clone, Copy, PartialEq, Eq, Structural)]
pub enum ObjectOrder {
    Entries,
    Latest,
    Designation,
}

} // verus!
