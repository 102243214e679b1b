//! The command-line client's commands and the pure parts of carrying them out.
use vstd::prelude::*;
use crate::protocol::ProvideInfo;

verus! {

/// What the minimal client does once connected.
pub enum Action {
    Send {},
    Receive {},
}

/// A command of the interactive client.
#[allow(inconsistent_fields)]
pub enum Command {
    /// List all peers and their resources.
    List,
    /// Offer a file for download to other peers.
    Provide { path: String, id: Option<String> },
    /// Download another peer's file.
    Download { id: String, path: Option<String> },
    /// Expose a local TCP port to other peers.
    Expose { port: u16, id: Option<String> },
    /// Forward local TCP connections to another peer's port.
    Forward { id: String, port: Option<u16> },
    /// Withdraw local resources, all of them when `ids` is empty.
    Stop { ids: Vec<String> },
    /// Send a chat message to the room.
    Chat { message: String },
}

/// `s` with each `/` turned into `_`.
pub open spec fn slashes_replaced(s: Seq<char>) -> Seq<char>
    decreases s.len(),
{
    if s.len() == 0 {
        s
    } else {
        slashes_replaced(s.drop_last()).push(
            if s.last() == '/' {
                '_'
            } else {
                s.last()
            },
        )
    }
}

/// `s` with each `..`, scanning from the left, turned into `_`.
pub open spec fn dots_replaced(s: Seq<char>) -> Seq<char>
    decreases s.len(),
{
    if s.len() < 2 {
        s
    } else if s[0] == '.' && s[1] == '.' {
        seq!['_'] + dots_replaced(s.skip(2))
    } else {
        seq![s[0]] + dots_replaced(s.skip(1))
    }
}

/// A file name made from `label` that names no directory.
pub open spec fn safe_file_name(label: Seq<char>) -> Seq<char> {
    dots_replaced(slashes_replaced(label))
}

fn replace_slashes(s: &str) -> (r: String)
    ensures
        r@ == slashes_replaced(s@),
{
    let n = s.unicode_len();
    let mut r = String::new();
    let mut i: usize = 0;
    assert(s@.take(0) =~= Seq::<char>::empty());
    while i < n
        invariant
            i <= n == s@.len(),
            r@ == slashes_replaced(s@.take(i as int)),
        decreases n - i,
    {
        let ghost t = s@.take(i + 1);
        assert(t.drop_last() =~= s@.take(i as int));
        let ghost before = r@;
        if s.get_char(i) == '/' {
            r.append("_");
            proof {
                reveal_strlit("_");
                assert("_"@.len() == 1);
                assert("_"@[0] == '_');
                assert("_"@ =~= seq!['_']);
            }
        } else {
            let one = s.substring_char(i, i + 1);
            assert(one@ =~= seq![s@[i as int]]);
            r.append(one);
        }
        assert(t.last() == s@[i as int]);
        assert(r@ =~= slashes_replaced(t));
        i = i + 1;
    }
    assert(s@.take(n as int) =~= s@);
    r
}

fn replace_dots(s: &str) -> (r: String)
    ensures
        r@ == dots_replaced(s@),
{
    let n = s.unicode_len();
    let mut r = String::new();
    let mut i: usize = 0;
    assert(s@.skip(0) =~= s@);
    while i < n
        invariant
            i <= n == s@.len(),
            r@ + dots_replaced(s@.skip(i as int)) == dots_replaced(s@),
        decreases n - i,
    {
        let ghost rest = s@.skip(i as int);
        if i + 1 < n && s.get_char(i) == '.' && s.get_char(i + 1) == '.' {
            assert(rest.skip(2) =~= s@.skip(i + 2));
            assert(rest[0] == s@[i as int] && rest[1] == s@[i + 1]);
            assert(dots_replaced(rest) == seq!['_'] + dots_replaced(rest.skip(2)));
            r.append("_");
            proof {
                reveal_strlit("_");
                assert("_"@.len() == 1);
                assert("_"@[0] == '_');
                assert("_"@ =~= seq!['_']);
            }
            assert(r@ + dots_replaced(s@.skip(i + 2)) =~= dots_replaced(s@));
            i = i + 2;
        } else {
            if i + 1 < n {
                assert(rest.skip(1) =~= s@.skip(i + 1));
            } else {
                assert(rest =~= seq![s@[i as int]]);
                assert(s@.skip(i + 1) =~= Seq::<char>::empty());
            }
            let one = s.substring_char(i, i + 1);
            assert(one@ =~= seq![s@[i as int]]);
            assert(rest[0] == s@[i as int]);
            if i + 1 < n {
                assert(rest[1] == s@[i + 1]);
                assert(dots_replaced(rest) == seq![rest[0]] + dots_replaced(rest.skip(1)));
            }
            r.append(one);
            assert(r@ + dots_replaced(s@.skip(i + 1)) =~= dots_replaced(s@));
            i = i + 1;
        }
    }
    assert(s@.skip(n as int) =~= Seq::<char>::empty());
    assert(r@ + Seq::<char>::empty() =~= r@);
    r
}

/// Writes a download to disk.
pub struct DownloadHandler {
    pub path: Option<String>,
}

impl DownloadHandler {
    /// Where the download of `resource` goes: the chosen path, else a safe
    /// file name made from its label, or from `download` without one.
    pub fn target_path(&self, resource: &ProvideInfo) -> (r: String)
        ensures
            match self.path {
                Some(p) => r@ == p@,
                None => match resource.label {
                    Some(l) => r@ == safe_file_name(l@),
                    None => r@ == safe_file_name("download"@),
                },
            },
    {
        match &self.path {
            Some(p) => p.clone(),
            None => {
                let name = match &resource.label {
                    Some(l) => l.as_str(),
                    None => "download",
                };
                let once = replace_slashes(name);
                replace_dots(once.as_str())
            },
        }
    }
}

pub open spec fn digit_text(d: nat) -> Seq<char> {
    seq![seq!['0', '1', '2', '3', '4', '5', '6', '7', '8', '9'][d as int]]
}

/// `n` in decimal.
pub open spec fn decimal(n: nat) -> Seq<char>
    decreases n,
{
    if n < 10 {
        digit_text(n)
    } else {
        decimal(n / 10) + digit_text(n % 10)
    }
}

fn digit(d: u64) -> (r: &'static str)
    requires
        d < 10,
    ensures
        r@ == digit_text(d as nat),
{
    proof {
        reveal_strlit("0");
        reveal_strlit("1");
        reveal_strlit("2");
        reveal_strlit("3");
        reveal_strlit("4");
        reveal_strlit("5");
        reveal_strlit("6");
        reveal_strlit("7");
        reveal_strlit("8");
        reveal_strlit("9");
    }
    let r = if d == 0 {
        "0"
    } else if d == 1 {
        "1"
    } else if d == 2 {
        "2"
    } else if d == 3 {
        "3"
    } else if d == 4 {
        "4"
    } else if d == 5 {
        "5"
    } else if d == 6 {
        "6"
    } else if d == 7 {
        "7"
    } else if d == 8 {
        "8"
    } else {
        "9"
    };
    assert(r@ =~= digit_text(d as nat));
    r
}

pub fn to_decimal(n: u64) -> (r: String)
    ensures
        r@ == decimal(n as nat),
    decreases n,
{
    if n < 10 {
        String::from_str(digit(n))
    } else {
        let mut r = to_decimal(n / 10);
        r.append(digit(n % 10));
        r
    }
}

/// The resource that offers the file `name` of `size` bytes, under `id`
/// or else `file`.
pub fn file_resource(name: String, size: usize, id: Option<String>) -> (r: ProvideInfo)
    ensures
        r.id@ == match id {
            Some(i) => i@,
            None => "file"@,
        },
        r.kind@ == "file"@,
        r.track_kind is None,
        r.label == Some(name),
        r.size == Some(size),
{
    ProvideInfo {
        id: match id {
            Some(i) => i,
            None => String::from_str("file"),
        },
        kind: String::from_str("file"),
        track_kind: None,
        label: Some(name),
        size: Some(size),
    }
}

/// The resource that exposes local TCP port `port`, under `id` or else
/// `p` followed by the port number.
pub fn port_resource(port: u16, id: Option<String>) -> (r: ProvideInfo)
    ensures
        r.id@ == match id {
            Some(i) => i@,
            None => "p"@ + decimal(port as nat),
        },
        r.kind@ == "port"@,
        r.track_kind is None,
        r.label is Some && r.label->0@ == "port "@ + decimal(port as nat),
        r.size is None,
{
    let number = to_decimal(port as u64);
    let rid = match id {
        Some(i) => i,
        None => {
            let mut t = String::from_str("p");
            t.append(number.as_str());
            t
        },
    };
    let mut label = String::from_str("port ");
    label.append(number.as_str());
    ProvideInfo {
        id: rid,
        kind: String::from_str("port"),
        track_kind: None,
        label: Some(label),
        size: None,
    }
}

} // verus!
