//! What an entry shows: the kind of media, where it lives, and where its thumbnail comes from.
use vstd::prelude::*;
use crate::text::{
    before_any, chars_of, contains_chars, find_last, find_last_seq, has_seq, is_text, last_index,
    last_occurrence, lower_all, lower_chars, push_char, push_str, slice_chars, starts_with,
    starts_with_chars, string_of, strip_both, strip_char, take_before_any, trim, trim_chars,
    split_on, lemma_split_on_len,
};

verus! {

/// The kinds of media an entry can show.
#[derive(Debug, Clone, Copy, PartialEq, Eq, Structural, Hash)]
pub enum MediaKind {
    ImageJpg,
    ImagePng,
    ImageGif,
    VideoMp4,
    YouTube,
    Vimeo,
    Embed,
    Other,
    NoMedia,
}

/// How each kind is spelled, in storage and on the wire.
pub open spec fn kind_name(k: MediaKind) -> Seq<char> {
    match k {
        MediaKind::ImageJpg => "image_jpg"@,
        MediaKind::ImagePng => "image_png"@,
        MediaKind::ImageGif => "image_gif"@,
        MediaKind::VideoMp4 => "video_mp4"@,
        MediaKind::YouTube => "youtube"@,
        MediaKind::Vimeo => "vimeo"@,
        MediaKind::Embed => "embed"@,
        MediaKind::Other => "other"@,
        MediaKind::NoMedia => "none"@,
    }
}

/// The kind spelled `s`, if any is.
pub open spec fn kind_named(s: Seq<char>) -> Option<MediaKind> {
    if s == "image_jpg"@ {
        Some(MediaKind::ImageJpg)
    } else if s == "image_png"@ {
        Some(MediaKind::ImagePng)
    } else if s == "image_gif"@ {
        Some(MediaKind::ImageGif)
    } else if s == "video_mp4"@ {
        Some(MediaKind::VideoMp4)
    } else if s == "youtube"@ {
        Some(MediaKind::YouTube)
    } else if s == "vimeo"@ {
        Some(MediaKind::Vimeo)
    } else if s == "embed"@ {
        Some(MediaKind::Embed)
    } else if s == "other"@ {
        Some(MediaKind::Other)
    } else if s == "none"@ {
        Some(MediaKind::NoMedia)
    } else {
        None
    }
}

pub open spec fn image_kind(k: MediaKind) -> bool {
    k == MediaKind::ImageJpg || k == MediaKind::ImagePng || k == MediaKind::ImageGif
}

pub open spec fn video_kind(k: MediaKind) -> bool {
    k == MediaKind::VideoMp4 || k == MediaKind::YouTube || k == MediaKind::Vimeo
}

/// A URL up to its query or fragment.
pub open spec fn url_path(url: Seq<char>) -> Seq<char> {
    before_any(url, seq!['?', '#'])
}

/// The lowercased extension of a URL's path, if its path has a dot.
pub open spec fn url_extension(url: Seq<char>) -> Option<Seq<char>> {
    let path = url_path(url);
    let i = last_index(path, '.');
    if i < 0 {
        None
    } else {
        Some(lower_all(path.skip(i + 1)))
    }
}

/// The kind a file extension names, if it names one.
pub open spec fn kind_of_extension(ext: Seq<char>) -> Option<MediaKind> {
    if ext == "jpg"@ || ext == "jpeg"@ {
        Some(MediaKind::ImageJpg)
    } else if ext == "png"@ {
        Some(MediaKind::ImagePng)
    } else if ext == "gif"@ {
        Some(MediaKind::ImageGif)
    } else if ext == "mp4"@ || ext == "m4v"@ {
        Some(MediaKind::VideoMp4)
    } else {
        None
    }
}

/// The kind a URL's host gives away, for a URL whose extension says nothing.
pub open spec fn kind_of_host(url: Seq<char>) -> MediaKind {
    let lower = lower_all(url);
    if has_seq(lower, "youtube.com/"@) || has_seq(lower, "youtu.be/"@) {
        MediaKind::YouTube
    } else if has_seq(lower, "vimeo.com/"@) {
        MediaKind::Vimeo
    } else {
        MediaKind::Other
    }
}

/// The kind of media a URL points at: by extension first, then by host.
pub open spec fn kind_of_url(url: Seq<char>) -> MediaKind {
    match url_extension(url) {
        Some(ext) => match kind_of_extension(ext) {
            Some(k) => k,
            None => kind_of_host(url),
        },
        None => kind_of_host(url),
    }
}

/// The kind of something embedded in a page: a recognised kind, or an embed.
pub open spec fn kind_of_embed(url: Seq<char>) -> MediaKind {
    if kind_of_url(url) == MediaKind::Other {
        MediaKind::Embed
    } else {
        kind_of_url(url)
    }
}

impl Default for MediaKind {
    fn default() -> (k: MediaKind)
        ensures
            k == MediaKind::NoMedia,
    {
        MediaKind::NoMedia
    }
}

/// The kind of extension named by `ext`.
fn kind_for_extension(ext: &Vec<char>) -> (k: Option<MediaKind>)
    ensures
        k == kind_of_extension(ext@),
{
    if is_text(ext, "jpg") || is_text(ext, "jpeg") {
        Some(MediaKind::ImageJpg)
    } else if is_text(ext, "png") {
        Some(MediaKind::ImagePng)
    } else if is_text(ext, "gif") {
        Some(MediaKind::ImageGif)
    } else if is_text(ext, "mp4") || is_text(ext, "m4v") {
        Some(MediaKind::VideoMp4)
    } else {
        None
    }
}

impl MediaKind {
    pub fn is_image(self) -> (b: bool)
        ensures
            b == image_kind(self),
    {
        matches!(self, MediaKind::ImageJpg | MediaKind::ImagePng | MediaKind::ImageGif)
    }

    pub fn is_video(self) -> (b: bool)
        ensures
            b == video_kind(self),
    {
        matches!(self, MediaKind::VideoMp4 | MediaKind::YouTube | MediaKind::Vimeo)
    }

    /// Classifies a URL by the extension of its path, then by the video host it names.
    pub fn from_url(url: &str) -> (k: MediaKind)
        ensures
            k == kind_of_url(url@),
    {
        let v = chars_of(url);
        let stops = vec!['?', '#'];
        assert(stops@ =~= seq!['?', '#']);
        let path = take_before_any(&v, &stops);
        match find_last(&path, '.') {
            Some(i) => {
                let n = path.len();
                let ext = lower_chars(&slice_chars(&path, i + 1, n));
                match kind_for_extension(&ext) {
                    Some(k) => {
                        return k;
                    },
                    None => {},
                }
            },
            None => {},
        }
        let lower = lower_chars(&v);
        if contains_chars(&lower, &chars_of("youtube.com/")) || contains_chars(
            &lower,
            &chars_of("youtu.be/"),
        ) {
            MediaKind::YouTube
        } else if contains_chars(&lower, &chars_of("vimeo.com/")) {
            MediaKind::Vimeo
        } else {
            MediaKind::Other
        }
    }

    /// Classifies the target of an embed: what `from_url` recognises, or else an embed.
    pub fn from_embed_url(url: &str) -> (k: MediaKind)
        ensures
            k == kind_of_embed(url@),
            k != MediaKind::Other,
    {
        match MediaKind::from_url(url) {
            MediaKind::Other => MediaKind::Embed,
            kind => kind,
        }
    }

    /// How the kind is spelled.
    pub fn as_str(self) -> (s: &'static str)
        ensures
            s@ == kind_name(self),
    {
        match self {
            MediaKind::ImageJpg => "image_jpg",
            MediaKind::ImagePng => "image_png",
            MediaKind::ImageGif => "image_gif",
            MediaKind::VideoMp4 => "video_mp4",
            MediaKind::YouTube => "youtube",
            MediaKind::Vimeo => "vimeo",
            MediaKind::Embed => "embed",
            MediaKind::Other => "other",
            MediaKind::NoMedia => "none",
        }
    }

    /// The kind spelled `s`.
    pub fn from_name(s: &str) -> (k: Option<MediaKind>)
        ensures
            k == kind_named(s@),
    {
        let v = chars_of(s);
        MediaKind::from_chars(&v)
    }

    fn from_chars(v: &Vec<char>) -> (k: Option<MediaKind>)
        ensures
            k == kind_named(v@),
    {
        if is_text(v, "image_jpg") {
            Some(MediaKind::ImageJpg)
        } else if is_text(v, "image_png") {
            Some(MediaKind::ImagePng)
        } else if is_text(v, "image_gif") {
            Some(MediaKind::ImageGif)
        } else if is_text(v, "video_mp4") {
            Some(MediaKind::VideoMp4)
        } else if is_text(v, "youtube") {
            Some(MediaKind::YouTube)
        } else if is_text(v, "vimeo") {
            Some(MediaKind::Vimeo)
        } else if is_text(v, "embed") {
            Some(MediaKind::Embed)
        } else if is_text(v, "other") {
            Some(MediaKind::Other)
        } else if is_text(v, "none") {
            Some(MediaKind::NoMedia)
        } else {
            None
        }
    }
}

/// Reading a kind's name back gives the kind.
pub proof fn law_kind_name_round_trip(k: MediaKind)
    ensures
        kind_named(kind_name(k)) == Some(k),
{
    reveal_strlit("image_jpg");
    reveal_strlit("image_png");
    reveal_strlit("image_gif");
    reveal_strlit("video_mp4");
    reveal_strlit("youtube");
    reveal_strlit("vimeo");
    reveal_strlit("embed");
    reveal_strlit("other");
    reveal_strlit("none");
    let names = seq![
        "image_jpg"@,
        "image_png"@,
        "image_gif"@,
        "video_mp4"@,
        "youtube"@,
        "vimeo"@,
        "embed"@,
        "other"@,
        "none"@,
    ];
    assert forall|i: int, j: int| 0 <= i < j < 9 implies names[i] != names[j] by {
        if names[i].len() == names[j].len() {
            if names[i].len() == 9 {
                assert(names[i][6] != names[j][6]);
            } else {
                assert(names[i][0] != names[j][0]);
            }
        }
    }
    assert(names[0] == kind_name(MediaKind::ImageJpg));
    assert(names[8] == kind_name(MediaKind::NoMedia));
}

impl std::str::FromStr for MediaKind {
    type Err = ();

    fn from_str(s: &str) -> (r: Result<MediaKind, ()>)
        ensures
            r == match kind_named(s@) {
                Some(k) => Ok(k),
                None => Err::<MediaKind, ()>(()),
            },
    {
        match MediaKind::from_name(s) {
            Some(k) => Ok(k),
            None => Err(()),
        }
    }
}

} // verus!

verus! {

/// The kinds that are images, in the order a filter lists them.
pub open spec fn image_kinds() -> Seq<MediaKind> {
    seq![MediaKind::ImageJpg, MediaKind::ImagePng, MediaKind::ImageGif]
}

/// The kinds that are videos, in the order a filter lists them.
pub open spec fn video_kinds() -> Seq<MediaKind> {
    seq![MediaKind::VideoMp4, MediaKind::YouTube, MediaKind::Vimeo]
}

/// `s` with every repeat of an earlier kind left out.
pub open spec fn dedup(s: Seq<MediaKind>) -> Seq<MediaKind>
    decreases s.len(),
{
    if s.len() == 0 {
        s
    } else {
        let d = dedup(s.drop_last());
        if d.contains(s.last()) {
            d
        } else {
            d.push(s.last())
        }
    }
}

/// What one comma-separated part of a filter stands for: nothing when blank, a group, or one
/// kind; `None` when it names nothing.
pub open spec fn kinds_of_part(part: Seq<char>) -> Option<Seq<MediaKind>> {
    let t = trim(part);
    if t.len() == 0 {
        Some(Seq::empty())
    } else if t == "image"@ || t == "images"@ {
        Some(image_kinds())
    } else if t == "video"@ || t == "videos"@ {
        Some(video_kinds())
    } else {
        match kind_named(t) {
            Some(k) => Some(seq![k]),
            None => None,
        }
    }
}

/// The kinds a list of parts stands for, in order, or `None` if a part names nothing.
pub open spec fn kinds_of_parts(parts: Seq<Seq<char>>) -> Option<Seq<MediaKind>>
    decreases parts.len(),
{
    if parts.len() == 0 {
        Some(Seq::empty())
    } else {
        match (kinds_of_parts(parts.drop_last()), kinds_of_part(parts.last())) {
            (Some(a), Some(b)) => Some(a + b),
            _ => None,
        }
    }
}

/// What a filter written as text, such as `video,embed`, selects: `None` when a part names
/// nothing or nothing is selected.
pub open spec fn parsed_filter(s: Seq<char>) -> Option<Seq<MediaKind>> {
    match kinds_of_parts(split_on(s, ',')) {
        Some(ks) => if dedup(ks).len() > 0 {
            Some(dedup(ks))
        } else {
            None
        },
        None => None,
    }
}

/// The names of `ks`, joined by commas.
pub open spec fn joined_names(ks: Seq<MediaKind>) -> Seq<char>
    decreases ks.len(),
{
    if ks.len() == 0 {
        Seq::empty()
    } else if ks.len() == 1 {
        kind_name(ks[0])
    } else {
        joined_names(ks.drop_last()) + seq![','] + kind_name(ks.last())
    }
}

/// A non-empty set of media kinds to select, kept in the order they were first named.
#[derive(Debug, PartialEq, Eq)]
pub struct KindFilter(Vec<MediaKind>);

impl View for KindFilter {
    type V = Seq<MediaKind>;

    closed spec fn view(&self) -> Seq<MediaKind> {
        self.0@
    }
}

/// The kinds hold no repeats and there is at least one.
pub open spec fn filter_kinds_ok(ks: Seq<MediaKind>) -> bool {
    ks.len() > 0 && ks.no_duplicates()
}

proof fn lemma_dedup(s: Seq<MediaKind>)
    ensures
        dedup(s).no_duplicates(),
        dedup(s).len() > 0 <==> s.len() > 0,
        forall|k: MediaKind| dedup(s).contains(k) <==> s.contains(k),
    decreases s.len(),
{
    if s.len() > 0 {
        lemma_dedup(s.drop_last());
        let d = dedup(s.drop_last());
        assert forall|k: MediaKind| dedup(s).contains(k) <==> s.contains(k) by {
            if s.contains(k) && k != s.last() {
                let i = choose|i: int| 0 <= i < s.len() && s[i] == k;
                assert(s.drop_last()[i] == k);
            }
            if s.drop_last().contains(k) {
                let i = choose|i: int| 0 <= i < s.drop_last().len() && s.drop_last()[i] == k;
                assert(s[i] == k);
            }
            if !d.contains(s.last()) {
                if d.push(s.last()).contains(k) && k != s.last() {
                    let i = choose|i: int| 0 <= i < d.push(s.last()).len() && d.push(s.last())[i]
                        == k;
                    assert(d[i] == k);
                }
                if k == s.last() {
                    assert(d.push(s.last())[d.len() as int] == k);
                }
                if d.contains(k) {
                    let i = choose|i: int| 0 <= i < d.len() && d[i] == k;
                    assert(d.push(s.last())[i] == k);
                }
            }
            if k == s.last() {
                assert(s[s.len() - 1] == k);
            }
        }
        if d.len() == 0 {
            assert(!d.contains(s.last()));
        }
    }
}

/// Whether `k` is one of `v`.
fn has_kind(v: &Vec<MediaKind>, k: MediaKind) -> (b: bool)
    ensures
        b == v@.contains(k),
{
    let mut i: usize = 0;
    while i < v.len()
        invariant
            i <= v@.len(),
            forall|j: int| 0 <= j < i ==> v@[j] != k,
        decreases v.len() - i,
    {
        if v[i] == k {
            return true;
        }
        i = i + 1;
    }
    false
}

/// `kinds` with each repeat of an earlier kind left out.
fn dedup_kinds(kinds: &Vec<MediaKind>) -> (out: Vec<MediaKind>)
    ensures
        out@ == dedup(kinds@),
{
    let mut out: Vec<MediaKind> = Vec::new();
    let mut i: usize = 0;
    while i < kinds.len()
        invariant
            i <= kinds@.len(),
            out@ == dedup(kinds@.take(i as int)),
        decreases kinds.len() - i,
    {
        assert(kinds@.take(i + 1).drop_last() =~= kinds@.take(i as int));
        let k = kinds[i];
        if !has_kind(&out, k) {
            out.push(k);
        }
        i = i + 1;
    }
    assert(kinds@.take(i as int) =~= kinds@);
    out
}

/// Appends what one part of a filter stands for; `false` when it names nothing.
fn add_part(kinds: &mut Vec<MediaKind>, part: &Vec<char>) -> (ok: bool)
    ensures
        match kinds_of_part(part@) {
            Some(ks) => ok && final(kinds)@ == old(kinds)@ + ks,
            None => !ok && final(kinds)@ == old(kinds)@,
        },
{
    let t = trim_chars(part);
    if t.len() == 0 {
        assert(old(kinds)@ + Seq::<MediaKind>::empty() =~= old(kinds)@);
        true
    } else if is_text(&t, "image") || is_text(&t, "images") {
        kinds.push(MediaKind::ImageJpg);
        kinds.push(MediaKind::ImagePng);
        kinds.push(MediaKind::ImageGif);
        assert(kinds@ =~= old(kinds)@ + image_kinds());
        true
    } else if is_text(&t, "video") || is_text(&t, "videos") {
        kinds.push(MediaKind::VideoMp4);
        kinds.push(MediaKind::YouTube);
        kinds.push(MediaKind::Vimeo);
        assert(kinds@ =~= old(kinds)@ + video_kinds());
        true
    } else {
        match MediaKind::from_chars(&t) {
            Some(k) => {
                kinds.push(k);
                assert(kinds@ =~= old(kinds)@ + seq![k]);
                true
            },
            None => false,
        }
    }
}

/// Wraps kinds that are already distinct and not empty.
fn filter_of(kinds: Vec<MediaKind>) -> (f: KindFilter)
    requires
        filter_kinds_ok(kinds@),
    ensures
        f@ == kinds@,
{
    KindFilter(kinds)
}

impl KindFilter {
    #[verifier::type_invariant]
    spec fn well_formed(self) -> bool {
        filter_kinds_ok(self.0@)
    }

    /// The image kinds, as the `image` filter selects them.
    pub fn image() -> (ks: Vec<MediaKind>)
        ensures
            ks@ == image_kinds(),
    {
        let ks = vec![MediaKind::ImageJpg, MediaKind::ImagePng, MediaKind::ImageGif];
        assert(ks@ =~= image_kinds());
        ks
    }

    /// The video kinds, as the `video` filter selects them.
    pub fn video() -> (ks: Vec<MediaKind>)
        ensures
            ks@ == video_kinds(),
    {
        let ks = vec![MediaKind::VideoMp4, MediaKind::YouTube, MediaKind::Vimeo];
        assert(ks@ =~= video_kinds());
        ks
    }

    /// The distinct kinds of `kinds`, first occurrence first; `None` when there are none.
    pub fn new(kinds: Vec<MediaKind>) -> (f: Option<KindFilter>)
        ensures
            match f {
                Some(f) => f@ == dedup(kinds@) && kinds@.len() > 0,
                None => kinds@.len() == 0,
            },
    {
        let unique = dedup_kinds(&kinds);
        proof {
            lemma_dedup(kinds@);
        }
        if unique.len() == 0 {
            None
        } else {
            Some(filter_of(unique))
        }
    }

    /// A filter for one kind.
    pub fn single(kind: MediaKind) -> (f: KindFilter)
        ensures
            f@ == seq![kind],
    {
        let v = vec![kind];
        assert(v@ =~= seq![kind]);
        assert(v@.no_duplicates());
        filter_of(v)
    }

    pub fn kinds(&self) -> (ks: &[MediaKind])
        ensures
            ks@ == self@,
            filter_kinds_ok(self@),
    {
        proof {
            use_type_invariant(self);
        }
        self.0.as_slice()
    }

    /// Reads a filter such as `video`, `youtube,vimeo` or `image, embed`: comma-separated
    /// groups (`image`, `images`, `video`, `videos`) and kind names, blanks ignored.
    pub fn parse(s: &str) -> (f: Option<KindFilter>)
        ensures
            match f {
                Some(f) => parsed_filter(s@) == Some(f@),
                None => parsed_filter(s@) is None,
            },
    {
        let v = chars_of(s);
        let mut kinds: Vec<MediaKind> = Vec::new();
        let mut cur: Vec<char> = Vec::new();
        let mut ok = true;
        let mut i: usize = 0;
        proof {
            lemma_split_on_len(v@.take(0), ',');
            assert(v@.take(0) =~= Seq::<char>::empty());
            assert(split_on(v@.take(0), ',').drop_last() =~= Seq::<Seq<char>>::empty());
        }
        while i < v.len()
            invariant
                i <= v@.len(),
                split_on(v@.take(i as int), ',').len() >= 1,
                cur@ == split_on(v@.take(i as int), ',').last(),
                ok ==> kinds_of_parts(split_on(v@.take(i as int), ',').drop_last()) == Some(
                    kinds@,
                ),
                !ok ==> kinds_of_parts(split_on(v@.take(i as int), ',').drop_last()) is None,
            decreases v.len() - i,
        {
            let ghost parts = split_on(v@.take(i as int), ',');
            assert(v@.take(i + 1).drop_last() =~= v@.take(i as int));
            proof {
                lemma_split_on_len(v@.take(i + 1), ',');
            }
            if v[i] == ',' {
                let ghost before = kinds@;
                if ok {
                    ok = add_part(&mut kinds, &cur);
                }
                assert(split_on(v@.take(i + 1), ',').drop_last() =~= parts);
                assert(parts.drop_last().push(parts.last()) =~= parts);
                cur = Vec::new();
                assert(cur@ =~= Seq::<char>::empty());
            } else {
                cur.push(v[i]);
                assert(split_on(v@.take(i + 1), ',').drop_last() =~= parts.drop_last());
            }
            i = i + 1;
        }
        assert(v@.take(i as int) =~= v@);
        let ghost parts = split_on(v@, ',');
        proof {
            lemma_split_on_len(v@, ',');
        }
        assert(parts.drop_last().push(parts.last()) =~= parts);
        if ok {
            ok = add_part(&mut kinds, &cur);
        }
        if !ok {
            return None;
        }
        proof {
            lemma_dedup(kinds@);
            assert(kinds_of_parts(parts) == Some(kinds@));
        }
        KindFilter::new(kinds)
    }

    /// The kinds' names, joined by commas.
    pub fn to_text(&self) -> (s: String)
        ensures
            s@ == joined_names(self@),
    {
        let mut s = String::new();
        let mut i: usize = 0;
        while i < self.0.len()
            invariant
                i <= self@.len(),
                self@ == self.0@,
                s@ == joined_names(self@.take(i as int)),
            decreases self.0.len() - i,
        {
            assert(self@.take(i + 1).drop_last() =~= self@.take(i as int));
            if i > 0 {
                push_char(&mut s, ',');
            }
            push_str(&mut s, self.0[i].as_str());
            i = i + 1;
        }
        assert(self@.take(i as int) =~= self@);
        s
    }
}

impl std::str::FromStr for KindFilter {
    type Err = ();

    fn from_str(s: &str) -> (r: Result<KindFilter, ()>)
        ensures
            match r {
                Ok(f) => parsed_filter(s@) == Some(f@),
                Err(_) => parsed_filter(s@) is None,
            },
    {
        match KindFilter::parse(s) {
            Some(f) => Ok(f),
            None => Err(()),
        }
    }
}

} // verus!

verus! {

/// A stored thumbnail: its path under the thumbnail root, and its size when it was recorded.
#[derive(Debug, Clone, PartialEq, Eq)]
pub struct Thumb {
    pub path: String,
    pub width: Option<u32>,
    pub height: Option<u32>,
}

impl Thumb {
    /// A thumbnail whose size was never recorded.
    pub fn new(path: String) -> (t: Thumb)
        ensures
            t.path == path,
            t.width is None,
            t.height is None,
    {
        Thumb { path, width: None, height: None }
    }

    /// A thumbnail of a known size.
    pub fn sized(path: String, width: u32, height: u32) -> (t: Thumb)
        ensures
            t.path == path,
            t.width == Some(width),
            t.height == Some(height),
    {
        Thumb { path, width: Some(width), height: Some(height) }
    }
}

/// Where a thumbnail can be made from.
#[derive(Debug, Clone, PartialEq, Eq)]
pub enum ThumbSource {
    /// An image to download and scale.
    Direct(String),
    /// A video file to take a frame from.
    Frame(String),
    /// A provider's video id, whose thumbnail has to be looked up first.
    YouTube(String),
    Vimeo(String),
    NoSource,
}

/// What an entry shows, and its thumbnail once one is stored.
#[derive(Debug, PartialEq, Eq)]
pub struct Media {
    pub kind: MediaKind,
    pub url: Option<String>,
    pub hd_url: Option<String>,
    /// Where the thumbnail sits under the thumbnail root, as `YYYY/MM/YYYY-MM-DD.webp`.
    pub thumb_path: Option<String>,
    /// The thumbnail's public URL, when the reader was given a base to serve it under.
    pub thumb_url: Option<String>,
    pub thumb_width: Option<u32>,
    pub thumb_height: Option<u32>,
}

pub open spec fn opt_view(s: Option<String>) -> Option<Seq<char>> {
    match s {
        Some(s) => Some(s@),
        None => None,
    }
}

/// The text after the last occurrence of `marker` in `s`, if it occurs.
pub open spec fn after_marker(s: Seq<char>, marker: Seq<char>) -> Option<Seq<char>> {
    let i = last_occurrence(s, marker);
    if i < 0 {
        None
    } else {
        Some(s.skip(i + marker.len()))
    }
}

/// The value of the first `clip_id=` parameter at or after position `j` of `url`: a piece
/// that follows a `?` or `&` and starts with `clip_id=`, up to the next `?` or `&`.
pub open spec fn clip_id_from(url: Seq<char>, j: int) -> Option<Seq<char>>
    decreases url.len() - j,
{
    if j < 0 || j >= url.len() {
        None
    } else {
        let piece = before_any(url.skip(j + 1), seq!['?', '&']);
        if (url[j] == '?' || url[j] == '&') && starts_with(piece, "clip_id="@) {
            Some(piece.skip("clip_id="@.len() as int))
        } else {
            clip_id_from(url, j + 1)
        }
    }
}

/// Where a video's id starts in the path of a YouTube URL.
pub open spec fn youtube_tail(path: Seq<char>) -> Option<Seq<char>> {
    match after_marker(path, "/embed/"@) {
        Some(t) => Some(t),
        None => match after_marker(path, "youtu.be/"@) {
            Some(t) => Some(t),
            None => after_marker(path, "/v/"@),
        },
    }
}

/// Where a video's id starts in a Vimeo URL: after `/video/` in its path, or a `clip_id`.
pub open spec fn vimeo_tail(path: Seq<char>, url: Seq<char>) -> Option<Seq<char>> {
    match after_marker(path, "/video/"@) {
        Some(t) => Some(t),
        None => clip_id_from(url, 0),
    }
}

/// The provider's id of the video at `url`, for a YouTube or Vimeo entry.
pub open spec fn video_id_of(kind: MediaKind, url: Option<Seq<char>>) -> Option<Seq<char>> {
    match url {
        None => None,
        Some(u) => {
            let path = before_any(u, seq!['?', '#', '&']);
            let tail = match kind {
                MediaKind::YouTube => youtube_tail(path),
                MediaKind::Vimeo => vimeo_tail(path, u),
                _ => None,
            };
            match tail {
                None => None,
                Some(t) => {
                    let id = strip_both(t, '/');
                    if id.len() == 0 {
                        None
                    } else {
                        Some(id)
                    }
                },
            }
        },
    }
}

/// The text after the last `marker` in `v`.
fn after_last_marker(v: &Vec<char>, marker: &str) -> (r: Option<Vec<char>>)
    ensures
        match r {
            Some(t) => after_marker(v@, marker@) == Some(t@),
            None => after_marker(v@, marker@) is None,
        },
{
    let m = chars_of(marker);
    match find_last_seq(v, &m) {
        Some(i) => {
            let n = v.len();
            Some(slice_chars(v, i + m.len(), n))
        },
        None => None,
    }
}

/// The first `clip_id=` value of a URL.
fn clip_id(v: &Vec<char>) -> (r: Option<Vec<char>>)
    ensures
        match r {
            Some(t) => clip_id_from(v@, 0) == Some(t@),
            None => clip_id_from(v@, 0) is None,
        },
{
    let seps = vec!['?', '&'];
    assert(seps@ =~= seq!['?', '&']);
    let prefix = chars_of("clip_id=");
    let mut j: usize = 0;
    while j < v.len()
        invariant
            j <= v@.len(),
            seps@ == seq!['?', '&'],
            prefix@ == "clip_id="@,
            clip_id_from(v@, j as int) == clip_id_from(v@, 0),
        decreases v.len() - j,
    {
        if v[j] == '?' || v[j] == '&' {
            let n = v.len();
            let rest = slice_chars(v, j + 1, n);
            assert(rest@ =~= v@.skip(j + 1));
            let piece = take_before_any(&rest, &seps);
            if starts_with_chars(&piece, &prefix) {
                let m = piece.len();
                return Some(slice_chars(&piece, prefix.len(), m));
            }
        }
        j = j + 1;
    }
    None
}

impl Media {
    pub fn new(kind: MediaKind, url: Option<String>, hd_url: Option<String>) -> (m: Media)
        ensures
            m.kind == kind,
            m.url == url,
            m.hd_url == hd_url,
            m.thumb_path is None,
            m.thumb_url is None,
            m.thumb_width is None,
            m.thumb_height is None,
    {
        Media {
            kind,
            url,
            hd_url,
            thumb_path: None,
            thumb_url: None,
            thumb_width: None,
            thumb_height: None,
        }
    }

    /// Records the stored thumbnail, or its absence, and its public URL under `base`.
    pub fn set_thumb(&mut self, thumb: Option<Thumb>, base: Option<&str>)
        ensures
            final(self).kind == old(self).kind,
            final(self).url == old(self).url,
            final(self).hd_url == old(self).hd_url,
            match thumb {
                Some(t) => {
                    &&& final(self).thumb_path == Some(t.path)
                    &&& final(self).thumb_width == t.width
                    &&& final(self).thumb_height == t.height
                    &&& match base {
                        Some(b) => opt_view(final(self).thumb_url) == Some(b@ + t.path@),
                        None => final(self).thumb_url is None,
                    }
                },
                None => {
                    &&& final(self).thumb_path is None
                    &&& final(self).thumb_url is None
                    &&& final(self).thumb_width is None
                    &&& final(self).thumb_height is None
                },
            },
    {
        match thumb {
            Some(t) => {
                self.thumb_url = match base {
                    Some(b) => {
                        let mut u = String::new();
                        push_str(&mut u, b);
                        push_str(&mut u, t.path.as_str());
                        Some(u)
                    },
                    None => None,
                };
                self.thumb_path = Some(t.path);
                self.thumb_width = t.width;
                self.thumb_height = t.height;
            },
            None => {
                self.thumb_url = None;
                self.thumb_path = None;
                self.thumb_width = None;
                self.thumb_height = None;
            },
        }
    }

    /// Whether there is no media URL at all.
    pub fn is_empty(&self) -> (b: bool)
        ensures
            b == (self.url is None && self.hd_url is None),
    {
        self.url.is_none() && self.hd_url.is_none()
    }

    /// The best version to link to: the high-resolution one when there is one.
    pub fn best_url(&self) -> (u: Option<&str>)
        ensures
            match u {
                Some(u) => match self.hd_url {
                    Some(h) => u@ == h@,
                    None => self.url matches Some(l) && u@ == l@,
                },
                None => self.url is None && self.hd_url is None,
            },
    {
        match &self.hd_url {
            Some(h) => Some(h.as_str()),
            None => match &self.url {
                Some(l) => Some(l.as_str()),
                None => None,
            },
        }
    }

    /// The provider's id of a YouTube or Vimeo video.
    pub fn video_id(&self) -> (id: Option<String>)
        ensures
            opt_view(id) == video_id_of(self.kind, opt_view(self.url)),
    {
        let url = match &self.url {
            Some(u) => chars_of(u.as_str()),
            None => {
                return None;
            },
        };
        let stops = vec!['?', '#', '&'];
        assert(stops@ =~= seq!['?', '#', '&']);
        let path = take_before_any(&url, &stops);
        let tail = match self.kind {
            MediaKind::YouTube => match after_last_marker(&path, "/embed/") {
                Some(t) => Some(t),
                None => match after_last_marker(&path, "youtu.be/") {
                    Some(t) => Some(t),
                    None => after_last_marker(&path, "/v/"),
                },
            },
            MediaKind::Vimeo => match after_last_marker(&path, "/video/") {
                Some(t) => Some(t),
                None => clip_id(&url),
            },
            _ => None,
        };
        match tail {
            None => None,
            Some(t) => {
                let id = strip_char(&t, '/');
                if id.len() == 0 {
                    None
                } else {
                    Some(string_of(&id))
                }
            },
        }
    }

    /// Where the thumbnail comes from: an image's display version (its HD one when that is
    /// all it has), a provider's id, or a video file's frames.
    pub fn thumb_source(&self) -> (t: ThumbSource)
        ensures
            image_kind(self.kind) ==> match (self.url, self.hd_url) {
                (Some(u), _) => t matches ThumbSource::Direct(s) && s@ == u@,
                (None, Some(h)) => t matches ThumbSource::Direct(s) && s@ == h@,
                (None, None) => t is NoSource,
            },
            self.kind == MediaKind::YouTube ==> match video_id_of(self.kind, opt_view(self.url)) {
                Some(id) => t matches ThumbSource::YouTube(s) && s@ == id,
                None => t is NoSource,
            },
            self.kind == MediaKind::Vimeo ==> match video_id_of(self.kind, opt_view(self.url)) {
                Some(id) => t matches ThumbSource::Vimeo(s) && s@ == id,
                None => t is NoSource,
            },
            self.kind == MediaKind::VideoMp4 ==> match self.url {
                Some(u) => t matches ThumbSource::Frame(s) && s@ == u@,
                None => t is NoSource,
            },
            (self.kind == MediaKind::Embed || self.kind == MediaKind::Other || self.kind
                == MediaKind::NoMedia) ==> t is NoSource,
    {
        if self.kind.is_image() {
            let chosen = match &self.url {
                Some(u) => Some(u),
                None => self.hd_url.as_ref(),
            };
            return match chosen {
                Some(u) => ThumbSource::Direct(string_of(&chars_of(u.as_str()))),
                None => ThumbSource::NoSource,
            };
        }
        match self.kind {
            MediaKind::YouTube => match self.video_id() {
                Some(id) => ThumbSource::YouTube(id),
                None => ThumbSource::NoSource,
            },
            MediaKind::Vimeo => match self.video_id() {
                Some(id) => ThumbSource::Vimeo(id),
                None => ThumbSource::NoSource,
            },
            MediaKind::VideoMp4 => match &self.url {
                Some(u) => ThumbSource::Frame(string_of(&chars_of(u.as_str()))),
                None => ThumbSource::NoSource,
            },
            _ => ThumbSource::NoSource,
        }
    }
}

impl Clone for Media {
    fn clone(&self) -> (m: Media)
        ensures
            m == *self,
    {
        Media {
            kind: self.kind,
            url: self.url.clone(),
            hd_url: self.hd_url.clone(),
            thumb_path: self.thumb_path.clone(),
            thumb_url: self.thumb_url.clone(),
            thumb_width: self.thumb_width,
            thumb_height: self.thumb_height,
        }
    }
}

impl Default for Media {
    fn default() -> (m: Media)
        ensures
            m.kind == MediaKind::NoMedia,
            m.url is None && m.hd_url is None,
            m.thumb_path is None && m.thumb_url is None,
            m.thumb_width is None && m.thumb_height is None,
    {
        Media::new(MediaKind::NoMedia, None, None)
    }
}

} // verus!
