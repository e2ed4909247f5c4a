//! Records of submissions and comments, and the conversions between them.
use vstd::prelude::*;
use crate::text::{decimal, push_decimal, str_equal};

verus! {

/// One node of a conversation: a submission or a comment.
#[derive(Clone, Debug, PartialEq, Eq)]
pub struct Reddit {
    pub id: String,
    pub selftext: String,
    pub parent_id: Option<String>,
    pub subreddit: String,
    pub permalink: Option<String>,
}

/// A submission as it appears in a dump.
#[derive(Clone, Debug, PartialEq, Eq)]
pub struct Thread {
    pub name: String,
    pub selftext: String,
    pub num_comments: u64,
    pub subreddit: String,
    pub permalink: Option<String>,
}

/// A comment as it appears in a dump.
#[derive(Clone, Debug, PartialEq, Eq)]
pub struct Comment {
    pub name: String,
    pub body: String,
    pub parent_id: String,
    pub score: u64,
    pub ups: u64,
    pub downs: u64,
    pub subreddit: String,
    pub permalink: Option<String>,
}

/// One line of the processed output: a linear branch rendered as markdown.
#[derive(Clone, Debug, PartialEq, Eq)]
pub struct JsonEntry {
    pub raw_content: String,
    pub length: usize,
    pub subreddit: String,
    pub permalink: Option<String>,
    pub created_utc: Option<u64>,
}

/// Why a submission or comment yields no record.
#[derive(Clone, Copy, Debug, PartialEq, Eq, Structural)]
pub enum RedditError {
    /// The comment text is `[deleted]` or `[removed]`.
    DeletedOrRemoved,
    /// The submission has no comments.
    NoComments,
    /// The submission text is shorter than ten bytes.
    TooShort,
}

impl RedditError {
    /// The message that describes the error.
    pub fn message(&self) -> (r: String)
        ensures
            *self == RedditError::DeletedOrRemoved ==> r@ == "Comment is deleted or removed"@,
            *self == RedditError::NoComments ==> r@ == "Thread has no comments"@,
            *self == RedditError::TooShort ==> r@ == "Thread is too short"@,
    {
        match self {
            RedditError::DeletedOrRemoved => String::from_str("Comment is deleted or removed"),
            RedditError::NoComments => String::from_str("Thread has no comments"),
            RedditError::TooShort => String::from_str("Thread is too short"),
        }
    }
}

/// The text of a deleted or removed post.
pub open spec fn is_deleted(text: Seq<char>) -> bool {
    text == "[deleted]"@ || text == "[removed]"@
}

/// The comment text with its score line appended.
pub open spec fn text_with_scores(body: Seq<char>, score: u64, ups: u64, downs: u64) -> Seq<char> {
    body + "\n\n{score: "@ + decimal(score as nat) + " Ups: "@ + decimal(ups as nat) + " Downs: "@
        + decimal(downs as nat) + "}"@
}

/// The minimum byte length of a submission text.
pub open spec fn min_selftext_bytes() -> nat {
    10
}

fn is_deleted_text(text: &str) -> (r: bool)
    ensures
        r == is_deleted(text@),
        r <==> (text@ == "[deleted]"@ || text@ == "[removed]"@),
{
    str_equal(text, "[deleted]") || str_equal(text, "[removed]")
}

/// A JSON value as far as the record conversions read it.
#[derive(Clone, Debug, PartialEq, Eq)]
pub enum JsonField {
    /// A string.
    Str(String),
    /// A number that is an integer in the range of `i64`.
    Int(i64),
    /// Anything else: null, a boolean, another number, an array or an object.
    Other,
}

/// A JSON object: its keys with their values, in order. Lookup takes the
/// first entry with the key.
#[derive(Clone, Debug, PartialEq, Eq)]
pub struct JsonObject {
    pub entries: Vec<(String, JsonField)>,
}

/// The value of the first entry with the key.
pub open spec fn lookup(entries: Seq<(String, JsonField)>, key: Seq<char>) -> Option<JsonField>
    decreases entries.len(),
{
    if entries.len() == 0 {
        None
    } else if entries[0].0@ == key {
        Some(entries[0].1)
    } else {
        lookup(entries.drop_first(), key)
    }
}

/// The id of a record: the `name` entry if present, otherwise the `id` entry.
pub open spec fn id_entry(entries: Seq<(String, JsonField)>) -> Option<JsonField> {
    match lookup(entries, "name"@) {
        Some(v) => Some(v),
        None => lookup(entries, "id"@),
    }
}

/// The string of a field that is a string.
pub open spec fn str_of(f: Option<JsonField>) -> Option<String> {
    match f {
        Some(JsonField::Str(s)) => Some(s),
        _ => None,
    }
}

/// The subreddit named by the entries, or the empty string.
pub open spec fn subreddit_of(entries: Seq<(String, JsonField)>) -> Seq<char> {
    match str_of(lookup(entries, "subreddit"@)) {
        Some(s) => s@,
        None => seq![],
    }
}

/// The inputs on which converting a comment object panics: a `body` that is
/// not a string, or, for a live comment, a missing or non-string id or
/// `parent_id`.
pub open spec fn comment_object_panics(entries: Seq<(String, JsonField)>) -> bool {
    match lookup(entries, "body"@) {
        None => false,
        Some(JsonField::Str(b)) => !is_deleted(b@) && (str_of(id_entry(entries)) is None || str_of(
            lookup(entries, "parent_id"@),
        ) is None),
        Some(_) => true,
    }
}

/// The inputs on which converting a submission object panics: a submission
/// with comments whose id or `selftext` is missing or not a string.
pub open spec fn thread_object_panics(entries: Seq<(String, JsonField)>) -> bool {
    match lookup(entries, "num_comments"@) {
        None => false,
        Some(n) => n != JsonField::Int(0) && (str_of(id_entry(entries)) is None || str_of(
            lookup(entries, "selftext"@),
        ) is None),
    }
}

/// The record that an object converts to: strings of the object, the
/// `subreddit` entry (empty if absent) and the `permalink` entry.
pub open spec fn object_record(
    entries: Seq<(String, JsonField)>,
    id: String,
    text: String,
    parent: Option<String>,
    r: Reddit,
) -> bool {
    &&& r.id == id
    &&& r.selftext == text
    &&& r.parent_id == parent
    &&& r.subreddit@ == subreddit_of(entries)
    &&& r.permalink == str_of(lookup(entries, "permalink"@))
}

impl JsonObject {
    /// The position of the first entry with the key.
    fn position(&self, key: &str) -> (r: Option<usize>)
        ensures
            match r {
                Some(i) => i < self.entries.len() && lookup(self.entries@, key@) == Some(
                    self.entries@[i as int].1,
                ),
                None => lookup(self.entries@, key@) is None,
            },
    {
        let mut i: usize = 0;
        assert(self.entries@.skip(0) =~= self.entries@);
        while i < self.entries.len()
            invariant
                i <= self.entries.len(),
                lookup(self.entries@, key@) == lookup(self.entries@.skip(i as int), key@),
            decreases self.entries.len() - i,
        {
            let ghost rest = self.entries@.skip(i as int);
            assert(rest.drop_first() =~= self.entries@.skip(i + 1));
            if str_equal(self.entries[i].0.as_str(), key) {
                return Some(i);
            }
            i = i + 1;
        }
        None
    }

    /// A copy of the string entry with the key, if it is a string.
    fn get_str(&self, key: &str) -> (r: Option<String>)
        ensures
            r == str_of(lookup(self.entries@, key@)),
    {
        match self.position(key) {
            Some(i) => match &self.entries[i].1 {
                JsonField::Str(s) => Some(s.clone()),
                _ => None,
            },
            None => None,
        }
    }

    fn get_id(&self) -> (r: Option<String>)
        ensures
            r == str_of(id_entry(self.entries@)),
    {
        match self.position("name") {
            Some(i) => match &self.entries[i].1 {
                JsonField::Str(s) => Some(s.clone()),
                _ => None,
            },
            None => self.get_str("id"),
        }
    }

    fn get_subreddit(&self) -> (r: String)
        ensures
            r@ == subreddit_of(self.entries@),
    {
        match self.get_str("subreddit") {
            Some(s) => s,
            None => String::new(),
        }
    }
}

impl Reddit {
    /// The record of a comment object: `None` without a `body` or for a
    /// deleted or removed comment.
    pub fn from_comment(json: &JsonObject) -> (r: Option<Self>)
        requires
            !comment_object_panics(json.entries@),
        ensures
            match lookup(json.entries@, "body"@) {
                Some(JsonField::Str(b)) => if is_deleted(b@) {
                    r is None
                } else {
                    r matches Some(rec) && object_record(
                        json.entries@,
                        str_of(id_entry(json.entries@)).unwrap(),
                        b,
                        str_of(lookup(json.entries@, "parent_id"@)),
                        rec,
                    )
                },
                _ => r is None,
            },
    {
        match json.position("body") {
            None => None,
            Some(bi) => {
                let body = match &json.entries[bi].1 {
                    JsonField::Str(b) => b.clone(),
                    _ => {
                        return None;
                    },
                };
                if is_deleted_text(body.as_str()) {
                    return None;
                }
                let id = match json.get_id() {
                    Some(s) => s,
                    None => {
                        return None;
                    },
                };
                let parent = json.get_str("parent_id");
                if parent.is_none() {
                    return None;
                }
                Some(
                    Reddit {
                        id,
                        selftext: body,
                        parent_id: parent,
                        subreddit: json.get_subreddit(),
                        permalink: json.get_str("permalink"),
                    },
                )
            },
        }
    }

    /// The record of a submission object: `None` without `num_comments`,
    /// when it is the integer zero, or when the text is shorter than ten
    /// bytes.
    pub fn from_thread(json: &JsonObject) -> (r: Option<Self>)
        requires
            !thread_object_panics(json.entries@),
        ensures
            match lookup(json.entries@, "num_comments"@) {
                None => r is None,
                Some(n) => if n == JsonField::Int(0) {
                    r is None
                } else {
                    let text = str_of(lookup(json.entries@, "selftext"@)).unwrap();
                    if (vstd::utf8::encode_utf8(text@).len() as usize) < min_selftext_bytes() {
                        r is None
                    } else {
                        r matches Some(rec) && object_record(
                            json.entries@,
                            str_of(id_entry(json.entries@)).unwrap(),
                            text,
                            None,
                            rec,
                        )
                    }
                },
            },
    {
        match json.position("num_comments") {
            None => None,
            Some(ni) => {
                let zero = match &json.entries[ni].1 {
                    JsonField::Int(k) => *k == 0,
                    _ => false,
                };
                if zero {
                    return None;
                }
                let id = match json.get_id() {
                    Some(s) => s,
                    None => {
                        return None;
                    },
                };
                let selftext = match json.get_str("selftext") {
                    Some(s) => s,
                    None => {
                        return None;
                    },
                };
                if selftext.as_str().len() < 10 {
                    return None;
                }
                Some(
                    Reddit {
                        id,
                        selftext,
                        parent_id: None,
                        subreddit: json.get_subreddit(),
                        permalink: json.get_str("permalink"),
                    },
                )
            },
        }
    }
}

impl JsonObject {
    /// Whether converting this object as a comment completes (see
    /// `comment_object_panics`).
    pub fn comment_convertible(&self) -> (r: bool)
        ensures
            r == !comment_object_panics(self.entries@),
    {
        match self.position("body") {
            None => true,
            Some(bi) => match &self.entries[bi].1 {
                JsonField::Str(b) => {
                    if is_deleted_text(b.as_str()) {
                        true
                    } else {
                        self.get_id().is_some() && self.get_str("parent_id").is_some()
                    }
                },
                _ => false,
            },
        }
    }

    /// Whether converting this object as a submission completes (see
    /// `thread_object_panics`).
    pub fn thread_convertible(&self) -> (r: bool)
        ensures
            r == !thread_object_panics(self.entries@),
    {
        match self.position("num_comments") {
            None => true,
            Some(ni) => {
                let zero = match &self.entries[ni].1 {
                    JsonField::Int(k) => *k == 0,
                    _ => false,
                };
                zero || (self.get_id().is_some() && self.get_str("selftext").is_some())
            },
        }
    }
}

impl Comment {
    /// The record of this comment; with `include_scores` its text ends with
    /// the score, ups and downs. Deleted and removed comments give an error.
    pub fn into_reddit(self, include_scores: bool) -> (r: Result<Reddit, RedditError>)
        ensures
            is_deleted(self.body@) ==> r == Err::<Reddit, RedditError>(
                RedditError::DeletedOrRemoved,
            ),
            !is_deleted(self.body@) ==> (r matches Ok(rec) && {
                &&& rec.id == self.name
                &&& rec.parent_id == Some(self.parent_id)
                &&& rec.subreddit == self.subreddit
                &&& rec.permalink == self.permalink
                &&& include_scores ==> rec.selftext@ == text_with_scores(
                    self.body@,
                    self.score,
                    self.ups,
                    self.downs,
                )
                &&& !include_scores ==> rec.selftext == self.body
            }),
            !include_scores ==> r == comment_record(self),
            r is Err <==> (self.body@ == "[deleted]"@ || self.body@ == "[removed]"@),
    {
        if is_deleted_text(self.body.as_str()) {
            return Err(RedditError::DeletedOrRemoved);
        }
        let selftext = if include_scores {
            let mut t = self.body;
            t.append("\n\n{score: ");
            push_decimal(&mut t, self.score);
            t.append(" Ups: ");
            push_decimal(&mut t, self.ups);
            t.append(" Downs: ");
            push_decimal(&mut t, self.downs);
            t.append("}");
            t
        } else {
            self.body
        };
        Ok(
            Reddit {
                id: self.name,
                selftext,
                parent_id: Some(self.parent_id),
                subreddit: self.subreddit,
                permalink: self.permalink,
            },
        )
    }
}

/// The record of a comment, or why it has none.
pub open spec fn comment_record(c: Comment) -> Result<Reddit, RedditError> {
    if is_deleted(c.body@) {
        Err(RedditError::DeletedOrRemoved)
    } else {
        Ok(
            Reddit {
                id: c.name,
                selftext: c.body,
                parent_id: Some(c.parent_id),
                subreddit: c.subreddit,
                permalink: c.permalink,
            },
        )
    }
}

/// The record of a submission, or why it has none.
pub open spec fn thread_record(t: Thread) -> Result<Reddit, RedditError> {
    if t.num_comments == 0 {
        Err(RedditError::NoComments)
    } else if (vstd::utf8::encode_utf8(t.selftext@).len() as usize) < min_selftext_bytes() {
        Err(RedditError::TooShort)
    } else {
        Ok(
            Reddit {
                id: t.name,
                selftext: t.selftext,
                parent_id: None,
                subreddit: t.subreddit,
                permalink: t.permalink,
            },
        )
    }
}

impl TryFrom<Comment> for Reddit {
    type Error = RedditError;

    fn try_from(comment: Comment) -> (r: Result<Reddit, RedditError>) {
        if is_deleted_text(comment.body.as_str()) {
            return Err(RedditError::DeletedOrRemoved);
        }
        Ok(
            Reddit {
                id: comment.name,
                selftext: comment.body,
                parent_id: Some(comment.parent_id),
                subreddit: comment.subreddit,
                permalink: comment.permalink,
            },
        )
    }
}

impl vstd::std_specs::convert::TryFromSpecImpl<Comment> for Reddit {
    open spec fn obeys_try_from_spec() -> bool {
        true
    }

    open spec fn try_from_spec(v: Comment) -> Result<Reddit, RedditError> {
        comment_record(v)
    }
}

impl TryFrom<Thread> for Reddit {
    type Error = RedditError;

    fn try_from(thread: Thread) -> (r: Result<Reddit, RedditError>) {
        if thread.num_comments == 0 {
            return Err(RedditError::NoComments);
        }
        if thread.selftext.as_str().len() < 10 {
            return Err(RedditError::TooShort);
        }
        Ok(
            Reddit {
                id: thread.name,
                selftext: thread.selftext,
                parent_id: None,
                subreddit: thread.subreddit,
                permalink: thread.permalink,
            },
        )
    }
}

impl vstd::std_specs::convert::TryFromSpecImpl<Thread> for Reddit {
    open spec fn obeys_try_from_spec() -> bool {
        true
    }

    open spec fn try_from_spec(v: Thread) -> Result<Reddit, RedditError> {
        thread_record(v)
    }
}

/// A comment object and the comment read from the same line agree: the
/// object converts without panicking, it yields no record exactly when the
/// comment is deleted or removed, and otherwise both give the record that
/// `object_record` describes.
pub proof fn lemma_comment_object_agrees(entries: Seq<(String, JsonField)>, c: Comment)
    requires
        lookup(entries, "body"@) == Some(JsonField::Str(c.body)),
        str_of(id_entry(entries)) == Some(c.name),
        str_of(lookup(entries, "parent_id"@)) == Some(c.parent_id),
        c.subreddit@ == subreddit_of(entries),
        c.permalink == str_of(lookup(entries, "permalink"@)),
    ensures
        !comment_object_panics(entries),
        comment_record(c) is Err <==> is_deleted(c.body@),
        comment_record(c) matches Ok(rec) ==> object_record(
            entries,
            c.name,
            c.body,
            Some(c.parent_id),
            rec,
        ),
{
}

/// The JSON field of a comment count: an integer where it fits in `i64`,
/// otherwise a number that is no `i64`.
pub open spec fn json_count(n: u64) -> JsonField {
    if n <= i64::MAX {
        JsonField::Int(n as i64)
    } else {
        JsonField::Other
    }
}

/// A submission object and the submission read from the same line agree:
/// the object converts without panicking, it yields no record exactly when
/// the submission has none, and otherwise both give the record that
/// `object_record` describes.
pub proof fn lemma_thread_object_agrees(entries: Seq<(String, JsonField)>, t: Thread)
    requires
        lookup(entries, "num_comments"@) == Some(json_count(t.num_comments)),
        str_of(id_entry(entries)) == Some(t.name),
        str_of(lookup(entries, "selftext"@)) == Some(t.selftext),
        t.subreddit@ == subreddit_of(entries),
        t.permalink == str_of(lookup(entries, "permalink"@)),
    ensures
        !thread_object_panics(entries),
        thread_record(t) is Err <==> (t.num_comments == 0 || (vstd::utf8::encode_utf8(
            t.selftext@,
        ).len() as usize) < min_selftext_bytes()),
        thread_record(t) matches Ok(rec) ==> object_record(entries, t.name, t.selftext, None, rec),
{
}

/// A comment is refused exactly when its whole body is `[deleted]` or
/// `[removed]`; a body that only mentions either is kept, text unchanged.
pub proof fn lemma_comment_refused_exactly(c: Comment)
    ensures
        comment_record(c) is Err <==> (c.body@ == "[deleted]"@ || c.body@ == "[removed]"@),
        comment_record(c) matches Ok(rec) ==> rec.selftext == c.body && rec.id == c.name
            && rec.parent_id == Some(c.parent_id),
{
}

} // verus!
