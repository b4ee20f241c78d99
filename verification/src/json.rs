//! JSON status events sent to subscribed WebSocket clients: string
//! escaping, decimal formatting, and the record/action serializers.
//!
//! Escaping works character by character; every character the escape set
//! touches is ASCII, so this agrees with byte-level escaping of the UTF-8
//! encoding.

use vstd::prelude::*;

verus! {

use vstd::string::StringExecFns;
use vstd::string::StrSliceExecFns;

/// Lowercase hexadecimal digit for a value below 16.
pub open spec fn hex_digit(d: int) -> char {
    if d < 10 {
        ((0x30 + d) as u8) as char
    } else {
        ((0x57 + d) as u8) as char
    }
}

/// The JSON escape of one character: quotes and backslashes are
/// backslash-escaped, control characters take their short forms or a
/// `\u00..` sequence (DEL included), everything else stands for itself.
pub open spec fn escape_of_char(c: char) -> Seq<char> {
    if c == '"' {
        seq!['\\', '"']
    } else if c == '\\' {
        seq!['\\', '\\']
    } else if c == '\u{8}' {
        seq!['\\', 'b']
    } else if c == '\t' {
        seq!['\\', 't']
    } else if c == '\n' {
        seq!['\\', 'n']
    } else if c == '\u{c}' {
        seq!['\\', 'f']
    } else if c == '\r' {
        seq!['\\', 'r']
    } else if (c as u32) < 0x20 || c == '\u{7f}' {
        seq!['\\', 'u', '0', '0', hex_digit((c as u32) as int / 16), hex_digit(
            (c as u32) as int % 16,
        )]
    } else {
        seq![c]
    }
}

/// JSON escaping of a whole character sequence.
pub open spec fn json_escaped(s: Seq<char>) -> Seq<char>
    decreases s.len(),
{
    if s.len() == 0 {
        seq![]
    } else {
        escape_of_char(s[0]) + json_escaped(s.drop_first())
    }
}

/// A JSON string literal: the escaped characters between double quotes.
pub open spec fn json_string(s: Seq<char>) -> Seq<char> {
    seq!['"'] + json_escaped(s) + seq!['"']
}

pub proof fn lemma_json_escaped_push(s: Seq<char>, c: char)
    ensures
        json_escaped(s.push(c)) == json_escaped(s) + escape_of_char(c),
    decreases s.len(),
{
    if s.len() == 0 {
        assert(s.push(c).drop_first() =~= Seq::<char>::empty());
        assert(s.push(c)[0] == c);
        assert(json_escaped(s) + escape_of_char(c) =~= escape_of_char(c));
        assert(escape_of_char(c) + json_escaped(Seq::<char>::empty()) =~= escape_of_char(c));
    } else {
        assert(s.push(c).drop_first() =~= s.drop_first().push(c));
        assert(s.push(c)[0] == s[0]);
        lemma_json_escaped_push(s.drop_first(), c);
        assert(escape_of_char(s[0]) + (json_escaped(s.drop_first()) + escape_of_char(c)) =~= (
        escape_of_char(s[0]) + json_escaped(s.drop_first())) + escape_of_char(c));
    }
}

/// Relies on String::push: appends exactly the given character.
#[verifier::external_body]
fn push_char(s: &mut String, c: char)
    ensures
        final(s)@ == old(s)@.push(c),
{
    s.push(c);
}

fn hex_digit_exec(d: u32) -> (r: char)
    requires
        d < 16,
    ensures
        r == hex_digit(d as int),
{
    if d < 10 {
        (0x30 + d as u8) as char
    } else {
        (0x57 + d as u8) as char
    }
}

fn push_escaped(out: &mut String, c: char)
    ensures
        final(out)@ == old(out)@ + escape_of_char(c),
{
    if c == '"' {
        proof {
            reveal_strlit("\\\"");
        }
        out.append("\\\"");
        assert(final(out)@ =~= old(out)@ + escape_of_char(c));
    } else if c == '\\' {
        proof {
            reveal_strlit("\\\\");
        }
        out.append("\\\\");
        assert(final(out)@ =~= old(out)@ + escape_of_char(c));
    } else if c == '\u{8}' {
        proof {
            reveal_strlit("\\b");
        }
        out.append("\\b");
        assert(final(out)@ =~= old(out)@ + escape_of_char(c));
    } else if c == '\t' {
        proof {
            reveal_strlit("\\t");
        }
        out.append("\\t");
        assert(final(out)@ =~= old(out)@ + escape_of_char(c));
    } else if c == '\n' {
        proof {
            reveal_strlit("\\n");
        }
        out.append("\\n");
        assert(final(out)@ =~= old(out)@ + escape_of_char(c));
    } else if c == '\u{c}' {
        proof {
            reveal_strlit("\\f");
        }
        out.append("\\f");
        assert(final(out)@ =~= old(out)@ + escape_of_char(c));
    } else if c == '\r' {
        proof {
            reveal_strlit("\\r");
        }
        out.append("\\r");
        assert(final(out)@ =~= old(out)@ + escape_of_char(c));
    } else if (c as u32) < 0x20 || c == '\u{7f}' {
        proof {
            reveal_strlit("\\u00");
        }
        out.append("\\u00");
        push_char(out, hex_digit_exec((c as u32) / 16));
        push_char(out, hex_digit_exec((c as u32) % 16));
        assert(final(out)@ =~= old(out)@ + escape_of_char(c));
    } else {
        push_char(out, c);
        assert(final(out)@ =~= old(out)@ + escape_of_char(c));
    }
}

/// Escape a string for inclusion in JSON, double quotes included.
pub fn json_escape_str(v: &str) -> (r: String)
    ensures
        r@ == json_string(v@),
{
    proof {
        reveal_strlit("\"");
    }
    let mut result = String::from_str("\"");
    let n = v.unicode_len();
    let mut i: usize = 0;
    while i < n
        invariant
            n == v@.len(),
            i <= n,
            result@ == seq!['"'] + json_escaped(v@.take(i as int)),
        decreases n - i,
    {
        let c = v.get_char(i);
        proof {
            lemma_json_escaped_push(v@.take(i as int), c);
            assert(v@.take(i as int + 1) =~= v@.take(i as int).push(c));
        }
        push_escaped(&mut result, c);
        proof {
            assert(result@ =~= seq!['"'] + json_escaped(v@.take(i as int + 1)));
        }
        i = i + 1;
    }
    proof {
        reveal_strlit("\"");
        assert(v@.take(n as int) =~= v@);
    }
    push_char(&mut result, '"');
    assert(result@ =~= json_string(v@));
    result
}

/// The decimal digits of a number, most significant first.
pub open spec fn dec_digits(n: nat) -> Seq<char>
    decreases n,
{
    if n < 10 {
        seq![((0x30 + n) as u8) as char]
    } else {
        dec_digits(n / 10).push(((0x30 + n % 10) as u8) as char)
    }
}

/// Format a number in decimal.
pub fn u64_to_string(n: u64) -> (r: String)
    ensures
        r@ == dec_digits(n as nat),
    decreases n,
{
    if n < 10 {
        let mut s = String::new();
        push_char(&mut s, (0x30 + n as u8) as char);
        assert(s@ =~= dec_digits(n as nat));
        s
    } else {
        let mut s = u64_to_string(n / 10);
        push_char(&mut s, (0x30 + (n % 10) as u8) as char);
        s
    }
}

/// The JSON form of an optional string: `null` or the escaped string.
pub open spec fn opt_string_json(o: Option<String>) -> Seq<char> {
    match o {
        None => "null"@,
        Some(s) => json_string(s@),
    }
}

pub fn optional_string_to_json(optional_string: &Option<String>) -> (r: String)
    ensures
        r@ == opt_string_json(*optional_string),
{
    match optional_string {
        None => {
            proof {
                reveal_strlit("null");
            }
            String::from_str("null")
        },
        Some(s) => json_escape_str(s.as_str()),
    }
}

/// The JSON form of a boolean.
pub open spec fn bool_json(b: bool) -> Seq<char> {
    if b {
        "true"@
    } else {
        "false"@
    }
}

fn bool_to_json(b: bool) -> (r: String)
    ensures
        r@ == bool_json(b),
{
    if b {
        String::from_str("true")
    } else {
        String::from_str("false")
    }
}

/// One saved view as shown to subscribers.
pub struct SavedUiViewData {
    pub title: String,
    pub date_added: u64,
    pub added_by: Option<String>,
}

/// The abstract value of a saved-view record.
#[verifier::ext_equal]
pub struct SavedUiViewDataV {
    pub title: Seq<char>,
    pub date_added: u64,
    pub added_by: Option<Seq<char>>,
}

pub open spec fn opt_view(o: Option<String>) -> Option<Seq<char>> {
    match o {
        None => None,
        Some(s) => Some(s@),
    }
}

impl View for SavedUiViewData {
    type V = SavedUiViewDataV;

    open spec fn view(&self) -> SavedUiViewDataV {
        SavedUiViewDataV {
            title: self.title@,
            date_added: self.date_added,
            added_by: opt_view(self.added_by),
        }
    }
}

fn opt_string_copy(o: &Option<String>) -> (r: Option<String>)
    ensures
        opt_view(r) == opt_view(*o),
{
    match o {
        None => None,
        Some(s) => Some(s.clone()),
    }
}

impl SavedUiViewData {
    /// A field-for-field copy.
    pub fn duplicate(&self) -> (r: SavedUiViewData)
        ensures
            r@ == self@,
    {
        SavedUiViewData {
            title: self.title.clone(),
            date_added: self.date_added,
            added_by: opt_string_copy(&self.added_by),
        }
    }
}

impl SavedUiViewData {
    /// The JSON object for this record.
    pub open spec fn spec_json(&self) -> Seq<char> {
        "{\"title\":"@ + json_string(self.title@) + ",\"dateAdded\": \""@ + dec_digits(
            self.date_added as nat,
        ) + "\",\"addedBy\":"@ + opt_string_json(self.added_by) + "}"@
    }

    pub fn to_json(&self) -> (r: String)
        ensures
            r@ == self.spec_json(),
    {
        let mut out = String::from_str("{\"title\":");
        out.append(json_escape_str(self.title.as_str()).as_str());
        out.append(",\"dateAdded\": \"");
        out.append(u64_to_string(self.date_added).as_str());
        out.append("\",\"addedBy\":");
        out.append(optional_string_to_json(&self.added_by).as_str());
        out.append("}");
        out
    }
}

/// The metadata retrieved for one saved view's application.
pub struct ViewInfoData {
    pub app_title: String,
    pub grain_icon_url: String,
}

/// The abstract value of a view-info record.
#[verifier::ext_equal]
pub struct ViewInfoDataV {
    pub app_title: Seq<char>,
    pub grain_icon_url: Seq<char>,
}

impl View for ViewInfoData {
    type V = ViewInfoDataV;

    open spec fn view(&self) -> ViewInfoDataV {
        ViewInfoDataV { app_title: self.app_title@, grain_icon_url: self.grain_icon_url@ }
    }
}

impl ViewInfoData {
    /// A field-for-field copy.
    pub fn duplicate(&self) -> (r: ViewInfoData)
        ensures
            r@ == self@,
    {
        ViewInfoData {
            app_title: self.app_title.clone(),
            grain_icon_url: self.grain_icon_url.clone(),
        }
    }
}

impl ViewInfoData {
    /// The JSON object for this record.  The icon URL is inserted verbatim.
    pub open spec fn spec_json(&self) -> Seq<char> {
        "{\"appTitle\":"@ + json_string(self.app_title@) + ",\"grainIconUrl\":\""@
            + self.grain_icon_url@ + "\"}"@
    }

    pub fn to_json(&self) -> (r: String)
        ensures
            r@ == self.spec_json(),
    {
        let mut out = String::from_str("{\"appTitle\":");
        out.append(json_escape_str(self.app_title.as_str()).as_str());
        out.append(",\"grainIconUrl\":\"");
        out.append(self.grain_icon_url.as_str());
        out.append("\"}");
        out
    }
}

/// One user's profile as shown to subscribers.
pub struct ProfileData {
    pub display_name: String,
    pub picture_url: String,
}

/// The abstract value of a profile record.
#[verifier::ext_equal]
pub struct ProfileDataV {
    pub display_name: Seq<char>,
    pub picture_url: Seq<char>,
}

impl View for ProfileData {
    type V = ProfileDataV;

    open spec fn view(&self) -> ProfileDataV {
        ProfileDataV { display_name: self.display_name@, picture_url: self.picture_url@ }
    }
}

impl ProfileData {
    /// The JSON object for this record.
    pub open spec fn spec_json(&self) -> Seq<char> {
        "{\"pictureUrl\":"@ + json_string(self.picture_url@) + ", \"displayName\":"@ + json_string(
            self.display_name@,
        ) + "}"@
    }

    pub fn to_json(&self) -> (r: String)
        ensures
            r@ == self.spec_json(),
    {
        let mut out = String::from_str("{\"pictureUrl\":");
        out.append(json_escape_str(self.picture_url.as_str()).as_str());
        out.append(", \"displayName\":");
        out.append(json_escape_str(self.display_name.as_str()).as_str());
        out.append("}");
        out
    }
}

/// One status event broadcast to every subscribed client.  A view-info
/// retrieval that failed carries the failure's message text.
#[allow(inconsistent_fields)]
pub enum Action {
    Insert { token: String, data: SavedUiViewData },
    Remove { token: String },
    ViewInfo { token: String, data: Result<ViewInfoData, String> },
    CanWrite(bool),
    UserId(Option<String>),
    Description(String),
    User { id: String, data: ProfileData },
}

/// The abstract value of a status event.
#[verifier::ext_equal]
#[allow(inconsistent_fields)]
pub enum ActionV {
    Insert { token: Seq<char>, data: SavedUiViewDataV },
    Remove { token: Seq<char> },
    ViewInfo { token: Seq<char>, data: Result<ViewInfoDataV, Seq<char>> },
    CanWrite(bool),
    UserId(Option<Seq<char>>),
    Description(Seq<char>),
    User { id: Seq<char>, data: ProfileDataV },
}

impl View for Action {
    type V = ActionV;

    open spec fn view(&self) -> ActionV {
        match self {
            Action::Insert { token, data } => ActionV::Insert { token: token@, data: data@ },
            Action::Remove { token } => ActionV::Remove { token: token@ },
            Action::ViewInfo { token, data } => ActionV::ViewInfo {
                token: token@,
                data: (match data {
                    Ok(d) => Ok(d@),
                    Err(e) => Err(e@),
                }),
            },
            Action::CanWrite(b) => ActionV::CanWrite(*b),
            Action::UserId(o) => ActionV::UserId(opt_view(*o)),
            Action::Description(s) => ActionV::Description(s@),
            Action::User { id, data } => ActionV::User { id: id@, data: data@ },
        }
    }
}

impl Action {
    /// The JSON message for this action.  Tokens are inserted verbatim (the
    /// token alphabet never needs escaping); titles, names and failure
    /// texts are escaped.
    pub open spec fn spec_json(&self) -> Seq<char> {
        match self {
            Action::Insert { token, data } => "{\"insert\":{\"token\":\""@ + token@
                + "\",\"data\":"@ + data.spec_json() + " } }"@,
            Action::Remove { token } => "{\"remove\":{\"token\":\""@ + token@ + "\"}}"@,
            Action::ViewInfo { token, data } => match data {
                Ok(d) => "{\"viewInfo\":{\"token\":\""@ + token@ + "\",\"data\":"@ + d.spec_json()
                    + " } }"@,
                Err(e) => "{\"viewInfo\":{\"token\":\""@ + token@ + "\",\"failed\": "@
                    + json_string(e@) + " } }"@,
            },
            Action::CanWrite(b) => "{\"canWrite\":"@ + bool_json(*b) + "}"@,
            Action::UserId(o) => "{\"userId\":"@ + opt_string_json(*o) + "}"@,
            Action::Description(s) => "{\"description\":"@ + json_string(s@) + "}"@,
            Action::User { id, data } => "{\"user\":{\"id\":"@ + json_string(id@) + ", \"data\":"@
                + data.spec_json() + " }}"@,
        }
    }

    pub fn to_json(&self) -> (r: String)
        ensures
            r@ == self.spec_json(),
    {
        match self {
            Action::Insert { token, data } => {
                let mut out = String::from_str("{\"insert\":{\"token\":\"");
                out.append(token.as_str());
                out.append("\",\"data\":");
                out.append(data.to_json().as_str());
                out.append(" } }");
                out
            },
            Action::Remove { token } => {
                let mut out = String::from_str("{\"remove\":{\"token\":\"");
                out.append(token.as_str());
                out.append("\"}}");
                out
            },
            Action::ViewInfo { token, data } => {
                match data {
                    Ok(d) => {
                        let mut out = String::from_str("{\"viewInfo\":{\"token\":\"");
                        out.append(token.as_str());
                        out.append("\",\"data\":");
                        out.append(d.to_json().as_str());
                        out.append(" } }");
                        out
                    },
                    Err(e) => {
                        let mut out = String::from_str("{\"viewInfo\":{\"token\":\"");
                        out.append(token.as_str());
                        out.append("\",\"failed\": ");
                        out.append(json_escape_str(e.as_str()).as_str());
                        out.append(" } }");
                        out
                    },
                }
            },
            Action::CanWrite(b) => {
                let mut out = String::from_str("{\"canWrite\":");
                out.append(bool_to_json(*b).as_str());
                out.append("}");
                out
            },
            Action::UserId(o) => {
                let mut out = String::from_str("{\"userId\":");
                out.append(optional_string_to_json(o).as_str());
                out.append("}");
                out
            },
            Action::Description(s) => {
                let mut out = String::from_str("{\"description\":");
                out.append(json_escape_str(s.as_str()).as_str());
                out.append("}");
                out
            },
            Action::User { id, data } => {
                let mut out = String::from_str("{\"user\":{\"id\":");
                out.append(json_escape_str(id.as_str()).as_str());
                out.append(", \"data\":");
                out.append(data.to_json().as_str());
                out.append(" }}");
                out
            },
        }
    }
}

} // verus!
