//! The lobby form: the two text fields, which one has the focus, the
//! error shown after a refused start, and the rules that turn the typed
//! text into the address to connect to and the name to join with.
use vstd::prelude::*;
use vstd::string::*;
use crate::protocol::DEFAULT_SERVER_PORT;
use crate::text::{decimal, push_decimal};

verus! {

/// A character with the Unicode property `White_Space`: U+0009 to U+000D,
/// U+0020, U+0085, U+00A0, U+1680, U+2000 to U+200A, U+2028, U+2029,
/// U+202F, U+205F and U+3000.
pub open spec fn white_space(c: char) -> bool {
    let n = c as int;
    ||| 0x9 <= n <= 0xd
    ||| n == 0x20
    ||| n == 0x85
    ||| n == 0xa0
    ||| n == 0x1680
    ||| 0x2000 <= n <= 0x200a
    ||| n == 0x2028
    ||| n == 0x2029
    ||| n == 0x202f
    ||| n == 0x205f
    ||| n == 0x3000
}

/// The text with its leading white space removed.
pub open spec fn trim_start_ws(s: Seq<char>) -> Seq<char>
    decreases s.len(),
{
    if s.len() > 0 && white_space(s[0]) {
        trim_start_ws(s.drop_first())
    } else {
        s
    }
}

/// The text with its trailing white space removed.
pub open spec fn trim_end_ws(s: Seq<char>) -> Seq<char>
    decreases s.len(),
{
    if s.len() > 0 && white_space(s.last()) {
        trim_end_ws(s.drop_last())
    } else {
        s
    }
}

/// The text left of a string after removing leading and trailing white space.
pub open spec fn trim_whitespace(s: Seq<char>) -> Seq<char> {
    trim_end_ws(trim_start_ws(s))
}

/// Calls `str::trim`, which removes leading and trailing white space, white
/// space being the characters with the Unicode property `White_Space`.
#[verifier::external_body]
fn trim(s: &str) -> (r: &str)
    ensures
        r@ == trim_whitespace(s@),
{
    s.trim()
}

/// The address the lobby suggests: the local host on the default port.
pub open spec fn default_address() -> Seq<char> {
    "127.0.0.1:"@ + decimal(DEFAULT_SERVER_PORT as nat)
}

/// The address text the lobby connects to: the typed text without
/// surrounding white space, or the default address when nothing was typed;
/// the default port is appended when no port is given.
pub open spec fn lobby_address(typed: Seq<char>) -> Seq<char> {
    let t = trim_whitespace(typed);
    let rip = if t.len() == 0 { default_address() } else { t };
    if rip.contains(':') {
        rip
    } else {
        rip + ":"@ + decimal(DEFAULT_SERVER_PORT as nat)
    }
}

fn has_colon(s: &str) -> (r: bool)
    ensures
        r == s@.contains(':'),
{
    let n = s.unicode_len();
    let mut i: usize = 0;
    while i < n
        invariant
            n == s@.len(),
            i <= n,
            forall|j: int| 0 <= j < i ==> s@[j] != ':',
        decreases n - i,
    {
        if s.get_char(i) == ':' {
            return true;
        }
        i += 1;
    }
    false
}

/// The address text to connect to, from what was typed in the lobby's
/// address field.
pub fn resolve_address(typed: &str) -> (r: String)
    ensures
        r@ == lobby_address(typed@),
{
    let t = trim(typed);
    let mut rip = if t.unicode_len() == 0 {
        let mut d = String::from_str("127.0.0.1:");
        push_decimal(&mut d, DEFAULT_SERVER_PORT as u64);
        d
    } else {
        String::from_str(t)
    };
    if has_colon(rip.as_str()) {
        rip
    } else {
        rip.append(":");
        push_decimal(&mut rip, DEFAULT_SERVER_PORT as u64);
        rip
    }
}

/// A player name is accepted when, without surrounding white space, it
/// takes at least 3 bytes of UTF-8.
pub open spec fn name_accepted(typed: Seq<char>) -> bool {
    vstd::utf8::encode_utf8(trim_whitespace(typed)).len() >= 3
}

/// Every name that keeps at least 3 bytes of UTF-8 once surrounding white
/// space is removed is accepted, however long; every shorter one is refused.
pub proof fn lemma_names_of_three_bytes_accepted(typed: Seq<char>)
    ensures
        vstd::utf8::encode_utf8(trim_whitespace(typed)).len() >= 3 ==> name_accepted(typed),
        vstd::utf8::encode_utf8(trim_whitespace(typed)).len() < 3 ==> !name_accepted(typed),
{
}

/// The player name to join with: the typed name without surrounding white
/// space, or `None` when that is shorter than 3 bytes.
pub fn validate_name(typed: &str) -> (r: Option<String>)
    ensures
        r is Some <==> name_accepted(typed@),
        r matches Some(n) ==> n@ == trim_whitespace(typed@),
{
    let t = trim(typed);
    let bytes = t.as_bytes();
    if bytes.len() < 3 {
        None
    } else {
        Some(String::from_str(t))
    }
}


/// Calls `String::push`: appends `c` to the end of `s`.
#[verifier::external_body]
fn push_char(s: &mut String, c: char)
    ensures
        final(s)@ == old(s)@.push(c),
{
    s.push(c)
}

/// Calls `String::pop`: removes the last character of `s` and returns it,
/// or returns `None` and leaves `s` alone when `s` is empty.
#[verifier::external_body]
fn pop_char(s: &mut String) -> (r: Option<char>)
    ensures
        old(s)@.len() == 0 ==> r is None && final(s)@ == old(s)@,
        old(s)@.len() > 0 ==> r == Some(old(s)@.last()) && final(s)@ == old(s)@.drop_last(),
{
    s.pop()
}

/// A control character: Unicode general category Cc, the code points
/// U+0000 to U+001F and U+007F to U+009F.
pub open spec fn control_char(c: char) -> bool {
    (c as int) <= 0x1f || (0x7f <= (c as int) && (c as int) <= 0x9f)
}

/// Calls `char::is_control`, which tests for the general category Cc;
/// Unicode fixes that category to the code points of `control_char`.
#[verifier::external_body]
fn is_control(c: char) -> (r: bool)
    ensures
        r == control_char(c),
{
    c.is_control()
}

/// The two text fields of the lobby.
#[derive(PartialEq, Eq, Structural, Clone, Copy, Debug)]
pub enum Field {
    Ip,
    Name,
}

/// The lobby's state: what was typed in each field, which field receives
/// typed characters, and which error is on show.
pub struct LobbyForm {
    pub ip: String,
    pub name: String,
    pub focused: Field,
    pub show_ip_error: bool,
    pub show_name_error: bool,
}

/// The abstract value of the lobby form, its texts taken as characters.
pub struct LobbyView {
    pub ip: Seq<char>,
    pub name: Seq<char>,
    pub focused: Field,
    pub show_ip_error: bool,
    pub show_name_error: bool,
}

impl View for LobbyForm {
    type V = LobbyView;

    open spec fn view(&self) -> LobbyView {
        LobbyView {
            ip: self.ip@,
            name: self.name@,
            focused: self.focused,
            show_ip_error: self.show_ip_error,
            show_name_error: self.show_name_error,
        }
    }
}

/// The form after a printable character is typed: it goes to the end of
/// the focused field, whose error is taken down.
pub open spec fn typed(v: LobbyView, c: char) -> LobbyView {
    match v.focused {
        Field::Ip => LobbyView { ip: v.ip.push(c), show_ip_error: false, ..v },
        Field::Name => LobbyView { name: v.name.push(c), show_name_error: false, ..v },
    }
}

/// The form after a deletion: the focused field loses its last character,
/// if it has one, and its error is taken down.
pub open spec fn deleted(v: LobbyView) -> LobbyView {
    match v.focused {
        Field::Ip => LobbyView {
            ip: if v.ip.len() > 0 { v.ip.drop_last() } else { v.ip },
            show_ip_error: false,
            ..v
        },
        Field::Name => LobbyView {
            name: if v.name.len() > 0 { v.name.drop_last() } else { v.name },
            show_name_error: false,
            ..v
        },
    }
}

/// A printable character typed and then deleted leaves both fields and
/// the focus as they were.
pub proof fn lemma_delete_undoes_type(v: LobbyView, c: char)
    ensures
        deleted(typed(v, c)).ip == v.ip,
        deleted(typed(v, c)).name == v.name,
        deleted(typed(v, c)).focused == v.focused,
{
    assert(v.ip.push(c).drop_last() =~= v.ip);
    assert(v.name.push(c).drop_last() =~= v.name);
}

impl LobbyForm {
    /// The form as the lobby opens: the default address, no name, the name
    /// field focused, no error.
    pub fn new() -> (f: LobbyForm)
        ensures
            f@ == (LobbyView {
                ip: default_address(),
                name: Seq::<char>::empty(),
                focused: Field::Name,
                show_ip_error: false,
                show_name_error: false,
            }),
    {
        let mut ip = String::from_str("127.0.0.1:");
        push_decimal(&mut ip, DEFAULT_SERVER_PORT as u64);
        let f = LobbyForm { ip, name: String::new(), focused: Field::Name, show_ip_error: false, show_name_error: false };
        assert(f@.name =~= Seq::<char>::empty());
        f
    }

    /// A character typed on the keyboard; control characters are ignored.
    pub fn type_char(&mut self, c: char)
        ensures
            final(self)@ == (if control_char(c) { old(self)@ } else { typed(old(self)@, c) }),
    {
        if is_control(c) {
            return;
        }
        match self.focused {
            Field::Ip => {
                push_char(&mut self.ip, c);
                self.show_ip_error = false;
            },
            Field::Name => {
                push_char(&mut self.name, c);
                self.show_name_error = false;
            },
        }
    }

    /// A backspace: the focused field loses its last character.
    pub fn delete_char(&mut self)
        ensures
            final(self)@ == deleted(old(self)@),
    {
        match self.focused {
            Field::Ip => {
                pop_char(&mut self.ip);
                self.show_ip_error = false;
            },
            Field::Name => {
                pop_char(&mut self.name);
                self.show_name_error = false;
            },
        }
    }

    /// Tab: the focus moves to the other field.
    pub fn toggle_focus(&mut self)
        ensures
            final(self)@ == (LobbyView {
                focused: if old(self).focused == Field::Ip { Field::Name } else { Field::Ip },
                ..old(self)@
            }),
    {
        self.focused = if self.focused == Field::Ip { Field::Name } else { Field::Ip };
    }

    /// A click on a field: the focus moves to it.
    pub fn focus(&mut self, field: Field)
        ensures
            final(self)@ == (LobbyView { focused: field, ..old(self)@ }),
    {
        self.focused = field;
    }

    /// The error has been on show long enough: it is taken down.
    pub fn expire_errors(&mut self)
        ensures
            final(self)@ == (LobbyView { show_ip_error: false, show_name_error: false, ..old(self)@ }),
    {
        self.show_ip_error = false;
        self.show_name_error = false;
    }

    /// The address text to connect to, from the address field.
    pub fn address_text(&self) -> (r: String)
        ensures
            r@ == lobby_address(self.ip@),
    {
        resolve_address(self.ip.as_str())
    }

    /// The address text did not parse as a socket address: the address
    /// error is shown and the address field focused.
    pub fn reject_address(&mut self)
        ensures
            final(self)@ == (LobbyView { show_ip_error: true, focused: Field::Ip, ..old(self)@ }),
    {
        self.show_ip_error = true;
        self.focused = Field::Ip;
    }

    /// The name to join with; when it is too short, the name error is shown
    /// and the name field focused instead.
    pub fn submit_name(&mut self) -> (r: Option<String>)
        ensures
            r is Some <==> name_accepted(old(self).name@),
            r matches Some(n) ==> n@ == trim_whitespace(old(self).name@) && final(self)@ == old(self)@,
            r is None ==> final(self)@ == (LobbyView { show_name_error: true, focused: Field::Name, ..old(self)@ }),
    {
        let r = validate_name(self.name.as_str());
        if r.is_none() {
            self.show_name_error = true;
            self.focused = Field::Name;
        }
        r
    }

    /// The error text on show, if any: the address error comes first; the
    /// name error says whether the name is missing or too short.
    pub fn error_message(&self) -> (r: Option<&'static str>)
        ensures
            r is Some <==> (self.show_ip_error || self.show_name_error),
            r matches Some(m) ==> m@ == (if self.show_ip_error {
                "Please enter a valid IP!"@
            } else if trim_whitespace(self.name@).len() > 0 {
                "Name must be more than 2 characters!"@
            } else {
                "Please enter your name to continue!"@
            }),
    {
        if self.show_ip_error {
            Some("Please enter a valid IP!")
        } else if self.show_name_error {
            if trim(self.name.as_str()).unicode_len() > 0 {
                Some("Name must be more than 2 characters!")
            } else {
                Some("Please enter your name to continue!")
            }
        } else {
            None
        }
    }
}

} // verus!
