//! The two settings files: the hub's upload limit and the client's address
//! book of one entry.

use vstd::prelude::*;
use crate::text::{
    chars_of, parse_range, parsed_usize, pieces_view, split, split_at, starts_with, texts_view,
    trim, trim_bounds, trimmed,
};

verus! {

/// The upload limit that holds when the settings name none: one gibibyte.
pub const DEFAULT_UPLOAD_LIMIT: usize = 1073741824;

/// The name of the upload limit in the hub's settings.
pub open spec fn size_key() -> Seq<char> {
    "file_Size"@
}

/// The number that one factor of a size stands for: the number it writes,
/// white space around it set aside, or 1 when it writes none.
pub open spec fn factor(piece: Seq<char>) -> nat {
    match parsed_usize(trimmed(piece)) {
        Some(n) => n as nat,
        None => 1,
    }
}

/// The product of the factors.
pub open spec fn product(pieces: Seq<Seq<char>>) -> nat
    decreases pieces.len(),
{
    if pieces.len() == 0 {
        1
    } else {
        product(pieces.drop_last()) * factor(pieces.last())
    }
}

/// The size that `line` sets, if it sets one: the line names the upload
/// limit and holds an equals sign, and what stands between that sign and
/// the next one is a product of factors separated by `*`.
pub open spec fn size_entry(line: Seq<char>) -> Option<nat> {
    let text = trimmed(line);
    let fields = split(text, '=');
    if size_key().is_prefix_of(text) && fields.len() >= 2 {
        Some(product(split(fields[1], '*')))
    } else {
        None
    }
}

/// The size that the first line that sets one sets.
pub open spec fn first_size_entry(lines: Seq<Seq<char>>) -> Option<nat>
    decreases lines.len(),
{
    if lines.len() == 0 {
        None
    } else {
        match size_entry(lines[0]) {
            Some(size) => Some(size),
            None => first_size_entry(lines.drop_first()),
        }
    }
}

/// What the hub's settings say about the upload limit.
#[derive(Debug, Clone, Copy, PartialEq, Eq, Structural)]
pub enum SizeSetting {
    /// The settings set this limit, in bytes.
    Configured(usize),
    /// No line sets a limit; the default holds.
    Fallback,
    /// The settings set a limit beyond what the machine can count.
    Overflow,
}

/// What settings of these lines say about the upload limit.
pub open spec fn size_setting(lines: Seq<Seq<char>>) -> SizeSetting {
    match first_size_entry(lines) {
        Some(size) => if size <= usize::MAX {
            SizeSetting::Configured(size as usize)
        } else {
            SizeSetting::Overflow
        },
        None => SizeSetting::Fallback,
    }
}

impl SizeSetting {
    /// The limit to enforce, in bytes; `None` when the settings ask for
    /// more than the machine can count.
    pub fn limit(&self) -> (bytes: Option<usize>)
        ensures
            bytes == match *self {
                SizeSetting::Configured(size) => Some(size),
                SizeSetting::Fallback => Some(DEFAULT_UPLOAD_LIMIT),
                SizeSetting::Overflow => None,
            },
    {
        match self {
            SizeSetting::Configured(size) => Some(*size),
            SizeSetting::Fallback => Some(DEFAULT_UPLOAD_LIMIT),
            SizeSetting::Overflow => None,
        }
    }
}

fn factor_of(piece: &Vec<char>) -> (value: usize)
    ensures
        value == factor(piece@),
{
    let (start, end) = trim_bounds(piece);
    match parse_range(piece, start, end) {
        Some(n) => n,
        None => 1,
    }
}

fn product_of(pieces: &Vec<Vec<char>>) -> (value: Option<usize>)
    ensures
        match value {
            Some(n) => n == product(pieces_view(pieces@)),
            None => product(pieces_view(pieces@)) > usize::MAX,
        },
{
    let ghost all = pieces_view(pieces@);
    let mut acc: usize = 1;
    let mut zero = false;
    let mut over = false;
    let mut i: usize = 0;
    proof {
        assert(all.take(0) =~= Seq::<Seq<char>>::empty());
    }
    while i < pieces.len()
        invariant
            i <= pieces@.len(),
            all == pieces_view(pieces@),
            zero ==> product(all.take(i as int)) == 0,
            !zero ==> product(all.take(i as int)) >= 1,
            !zero && over ==> product(all.take(i as int)) > usize::MAX,
            !zero && !over ==> acc == product(all.take(i as int)),
        decreases pieces@.len() - i,
    {
        let f = factor_of(&pieces[i]);
        let ghost before = product(all.take(i as int));
        proof {
            assert(all.take(i + 1).drop_last() =~= all.take(i as int));
            assert(all.take(i + 1).last() == pieces@[i as int]@);
            assert(product(all.take(i + 1)) == before * f);
        }
        if f == 0 {
            zero = true;
            proof {
                assert(before * 0 == 0) by (nonlinear_arith);
            }
        } else if zero {
            proof {
                assert(0 * f == 0) by (nonlinear_arith);
            }
        } else if over {
            proof {
                assert(before * f >= before) by (nonlinear_arith)
                    requires
                        before >= 1,
                        f >= 1,
                ;
            }
        } else {
            proof {
                assert(before * f >= 1) by (nonlinear_arith)
                    requires
                        before >= 1,
                        f >= 1,
                ;
            }
            match acc.checked_mul(f) {
                Some(v) => {
                    acc = v;
                },
                None => {
                    over = true;
                },
            }
        }
        i += 1;
    }
    proof {
        assert(all.take(pieces@.len() as int) =~= all);
    }
    if zero {
        Some(0)
    } else if over {
        None
    } else {
        Some(acc)
    }
}

fn size_entry_of(line: &str) -> (entry: Option<Option<usize>>)
    ensures
        match entry {
            Some(Some(size)) => size_entry(line@) == Some(size as nat),
            Some(None) => size_entry(line@) is Some && size_entry(line@).unwrap() > usize::MAX,
            None => size_entry(line@) is None,
        },
{
    let text = chars_of(trim(line));
    let key = chars_of("file_Size");
    if !starts_with(&text, &key) {
        return None;
    }
    let fields = split_at(&text, '=');
    if fields.len() < 2 {
        return None;
    }
    let factors = split_at(&fields[1], '*');
    proof {
        assert(pieces_view(fields@)[1] == fields@[1]@);
    }
    Some(product_of(&factors))
}

/// Reads the upload limit out of the lines of the hub's settings. The
/// first line that names the limit and holds an equals sign decides; lines
/// before it, comments and section headers among them, say nothing.
pub fn read_upload_limit(lines: &Vec<String>) -> (setting: SizeSetting)
    ensures
        setting == size_setting(texts_view(lines@)),
{
    let ghost all = texts_view(lines@);
    let mut i: usize = 0;
    proof {
        assert(all.skip(0) =~= all);
    }
    while i < lines.len()
        invariant
            i <= lines@.len(),
            all == texts_view(lines@),
            first_size_entry(all) == first_size_entry(all.skip(i as int)),
        decreases lines@.len() - i,
    {
        proof {
            assert(all.skip(i as int)[0] == lines@[i as int]@);
            assert(all.skip(i as int).drop_first() =~= all.skip(i + 1));
        }
        match size_entry_of(lines[i].as_str()) {
            Some(Some(size)) => {
                return SizeSetting::Configured(size);
            },
            Some(None) => {
                return SizeSetting::Overflow;
            },
            None => {},
        }
        i += 1;
    }
    SizeSetting::Fallback
}

/// The lines of a fresh settings file for the hub: a section header, a
/// comment, and the default limit written as a product.
pub fn hub_settings_template() -> (lines: Vec<String>)
    ensures
        texts_view(lines@) == seq![
            "[Settings]"@,
            "# Set the max upload size in bytes (math allowed, e.g., 1024*1024*1024 = 1GB, so change it as you need to and re-run the EXE.)"@,
            "file_Size = 1024*1024*1024"@,
        ],
{
    let mut lines: Vec<String> = Vec::new();
    lines.push(String::from_str("[Settings]"));
    lines.push(
        String::from_str(
            "# Set the max upload size in bytes (math allowed, e.g., 1024*1024*1024 = 1GB, so change it as you need to and re-run the EXE.)",
        ),
    );
    lines.push(String::from_str("file_Size = 1024*1024*1024"));
    proof {
        assert(texts_view(lines@) =~= seq![
            "[Settings]"@,
            "# Set the max upload size in bytes (math allowed, e.g., 1024*1024*1024 = 1GB, so change it as you need to and re-run the EXE.)"@,
            "file_Size = 1024*1024*1024"@,
        ]);
    }
    lines
}

/// The name of the hub's address in the client's settings.
pub open spec fn host_key() -> Seq<char> {
    "host_tailscale_ip"@
}

/// The name of the client's own identity in its settings.
pub open spec fn device_key() -> Seq<char> {
    "client_device_name"@
}

/// Whether `i` is where the first double quote of `s` stands.
pub open spec fn first_quote_at(s: Seq<char>, i: int) -> bool {
    &&& 0 <= i < s.len()
    &&& s[i] == '"'
    &&& forall|j: int| 0 <= j < i ==> s[j] != '"'
}

/// Whether `i` is where the last double quote of `s` stands.
pub open spec fn last_quote_at(s: Seq<char>, i: int) -> bool {
    &&& 0 <= i < s.len()
    &&& s[i] == '"'
    &&& forall|j: int| i < j < s.len() ==> s[j] != '"'
}

/// What stands between the first double quote of `s` and the last, when
/// these are two.
pub open spec fn quoted(s: Seq<char>) -> Option<Seq<char>> {
    if exists|a: int, b: int| first_quote_at(s, a) && last_quote_at(s, b) && a < b {
        let (a, b) = choose|a: int, b: int| first_quote_at(s, a) && last_quote_at(s, b) && a < b;
        Some(s.subrange(a + 1, b))
    } else {
        None
    }
}

/// The value that `line` gives to `key`, if it gives one: the line starts
/// with the key, white space set aside, and holds a quoted value.
pub open spec fn entry(line: Seq<char>, key: Seq<char>) -> Option<Seq<char>> {
    if key.is_prefix_of(trimmed(line)) {
        quoted(trimmed(line))
    } else {
        None
    }
}

/// The value that the settings give to `key`: that of the last line that
/// gives it one, or nothing.
pub open spec fn setting(lines: Seq<Seq<char>>, key: Seq<char>) -> Seq<char>
    decreases lines.len(),
{
    if lines.len() == 0 {
        Seq::empty()
    } else {
        match entry(lines.last(), key) {
            Some(value) => value,
            None => setting(lines.drop_last(), key),
        }
    }
}

/// What a client needs to know before it connects.
#[derive(Debug, Clone, PartialEq, Eq)]
pub struct ClientConfig {
    /// Where the hub listens.
    pub host_ip: String,
    /// The identity under which this client goes online.
    pub device_name: String,
}

/// Why settings cannot be used.
#[derive(Debug, Clone, Copy, PartialEq, Eq, Structural)]
pub enum ConfigError {
    /// The hub's address or the client's name is missing or empty.
    MissingValues,
}

proof fn lemma_quotes_unique(s: Seq<char>, a: int, b: int, c: int, d: int)
    requires
        first_quote_at(s, a),
        last_quote_at(s, b),
        first_quote_at(s, c),
        last_quote_at(s, d),
    ensures
        a == c,
        b == d,
{
}

fn quoted_of(text: &str) -> (value: Option<String>)
    ensures
        match value {
            Some(inner) => quoted(text@) == Some(inner@),
            None => quoted(text@) is None,
        },
{
    let chars = chars_of(text);
    let n = chars.len();
    let mut first: usize = 0;
    while first < n && chars[first] != '"'
        invariant
            n == chars@.len(),
            first <= n,
            forall|j: int| 0 <= j < first ==> chars@[j] != '"',
        decreases n - first,
    {
        first += 1;
    }
    if first == n {
        proof {
            assert forall|a: int, b: int|
                !(first_quote_at(chars@, a) && last_quote_at(chars@, b) && a < b) by {}
        }
        return None;
    }
    let mut last: usize = n - 1;
    while chars[last] != '"'
        invariant
            n == chars@.len(),
            first <= last < n,
            chars@[first as int] == '"',
            forall|j: int| last < j < n ==> chars@[j] != '"',
        decreases last,
    {
        last -= 1;
    }
    proof {
        assert(first_quote_at(chars@, first as int));
        assert(last_quote_at(chars@, last as int));
        assert forall|a: int, b: int|
            first_quote_at(chars@, a) && last_quote_at(chars@, b) implies a == first && b
            == last by {
            lemma_quotes_unique(chars@, a, b, first as int, last as int);
        }
    }
    if first < last {
        Some(String::from_str(text.substring_char(first + 1, last)))
    } else {
        None
    }
}

fn entry_of(line: &str, key: &str) -> (value: Option<String>)
    ensures
        match value {
            Some(inner) => entry(line@, key@) == Some(inner@),
            None => entry(line@, key@) is None,
        },
{
    let text = trim(line);
    if starts_with(&chars_of(text), &chars_of(key)) {
        quoted_of(text)
    } else {
        None
    }
}

/// Reads the client's settings out of their lines. Each of the two values
/// is the quoted text on the last line that gives it; both must be there
/// and not empty.
pub fn parse_client_config(lines: &Vec<String>) -> (result: Result<ClientConfig, ConfigError>)
    ensures
        match result {
            Ok(config) => {
                &&& config.host_ip@ == setting(texts_view(lines@), host_key())
                &&& config.device_name@ == setting(texts_view(lines@), device_key())
                &&& config.host_ip@.len() > 0
                &&& config.device_name@.len() > 0
            },
            Err(ConfigError::MissingValues) => {
                ||| setting(texts_view(lines@), host_key()).len() == 0
                ||| setting(texts_view(lines@), device_key()).len() == 0
            },
        },
{
    let ghost all = texts_view(lines@);
    let mut host_ip = String::new();
    let mut device_name = String::new();
    let mut i: usize = 0;
    proof {
        assert(all.take(0) =~= Seq::<Seq<char>>::empty());
    }
    while i < lines.len()
        invariant
            i <= lines@.len(),
            all == texts_view(lines@),
            host_ip@ == setting(all.take(i as int), host_key()),
            device_name@ == setting(all.take(i as int), device_key()),
        decreases lines@.len() - i,
    {
        proof {
            assert(all.take(i + 1).drop_last() =~= all.take(i as int));
            assert(all.take(i + 1).last() == lines@[i as int]@);
        }
        let line = lines[i].as_str();
        match entry_of(line, "host_tailscale_ip") {
            Some(value) => {
                host_ip = value;
            },
            None => {},
        }
        match entry_of(line, "client_device_name") {
            Some(value) => {
                device_name = value;
            },
            None => {},
        }
        i += 1;
    }
    proof {
        assert(all.take(lines@.len() as int) =~= all);
    }
    if host_ip.as_str().is_empty() || device_name.as_str().is_empty() {
        Err(ConfigError::MissingValues)
    } else {
        Ok(ClientConfig { host_ip, device_name })
    }
}

/// The lines of a fresh settings file for a client: both values named and
/// left empty.
pub fn client_settings_template() -> (lines: Vec<String>)
    ensures
        texts_view(lines@) == seq!["host_tailscale_ip = \"\""@, "client_device_name = \"\""@],
{
    let mut lines: Vec<String> = Vec::new();
    lines.push(String::from_str("host_tailscale_ip = \"\""));
    lines.push(String::from_str("client_device_name = \"\""));
    proof {
        assert(texts_view(lines@) =~= seq![
            "host_tailscale_ip = \"\""@,
            "client_device_name = \"\""@,
        ]);
    }
    lines
}

} // verus!
