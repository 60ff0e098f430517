//! Where the dashboard keeps its state file, under the user's
//! configuration directory, and where the command-line client reaches its
//! HTTP API.
use vstd::prelude::*;
use crate::text::{
    chars_of, decimal, decimal_chars, extend_chars, find_char, first_index_of, slice_chars, string_of,
};

verus! {

/// `base` with the relative component `part` appended, as `PathBuf::push`
/// does it on Unix: a `/` goes between them unless `base` is empty or
/// already ends with one.
pub open spec fn path_join(base: Seq<char>, part: Seq<char>) -> Seq<char> {
    if base.len() == 0 {
        part
    } else if base.last() == '/' {
        base + part
    } else {
        base + "/"@ + part
    }
}

/// `base` joined with `part` (see [`path_join`]).
pub fn join_path(base: &str, part: &str) -> (r: String)
    ensures
        r@ == path_join(base@, part@),
{
    let mut cs = chars_of(base);
    let n = cs.len();
    if n > 0 && cs[n - 1] != '/' {
        extend_chars(&mut cs, &chars_of("/"));
    }
    extend_chars(&mut cs, &chars_of(part));
    string_of(&cs)
}

/// The dashboard's directory given the configuration directory `config`
/// (the current directory `.` when there is none).
pub open spec fn app_dir_spec(config: Option<Seq<char>>) -> Seq<char> {
    let base = match config {
        Some(c) => c,
        None => "."@,
    };
    path_join(base, "wotwot"@)
}

/// The dashboard's directory under the configuration directory `config`.
pub fn app_dir_in(config: Option<&str>) -> (r: String)
    ensures
        r@ == app_dir_spec(match config {
            Some(c) => Some(c@),
            None => None,
        }),
{
    match config {
        Some(c) => join_path(c, "wotwot"),
        None => join_path(".", "wotwot"),
    }
}

/// The `dirs` crate's `config_dir`, as text (`to_string_lossy`). It depends
/// on the environment, so the contract claims nothing of it.
#[verifier::external_body]
fn config_dir() -> (r: Option<String>) {
    dirs::config_dir().map(|p| p.to_string_lossy().into_owned())
}

/// The dashboard's directory under the user's configuration directory.
pub fn app_dir() -> (r: String)
    ensures
        exists|config: Option<Seq<char>>| r@ == app_dir_spec(config),
{
    let config = config_dir();
    match config {
        Some(c) => {
            let r = app_dir_in(Some(c.as_str()));
            assert(r@ == app_dir_spec(Some(c@)));
            r
        },
        None => {
            let r = app_dir_in(None);
            assert(r@ == app_dir_spec(None));
            r
        },
    }
}

/// The state file inside the dashboard's directory `dir`.
pub fn state_file_in(dir: &str) -> (r: String)
    ensures
        r@ == path_join(dir@, "state.json"@),
{
    join_path(dir, "state.json")
}

/// The port that the dashboard serves its HTTP API on unless told
/// otherwise.
pub const DEFAULT_PORT: u16 = 47291;

/// The address, `host:port`, that the command-line client reaches the API
/// at: `127.0.0.1` on the default port, or the authority of the URL given
/// in `WOTWOT_URL` (`http://host:port`): what follows an `http://` prefix,
/// up to the first `/`.
pub open spec fn api_address(url: Option<Seq<char>>) -> Seq<char> {
    match url {
        None => "127.0.0.1:"@ + decimal(DEFAULT_PORT as nat),
        Some(u) => {
            let rest = if u.len() >= 7 && u.take(7) == "http://"@ {
                u.skip(7)
            } else {
                u
            };
            match first_index_of(rest, '/') {
                Some(i) => rest.take(i),
                None => rest,
            }
        },
    }
}

fn has_prefix(cs: &Vec<char>, pre: &Vec<char>) -> (r: bool)
    ensures
        r == (pre@.len() <= cs@.len() && cs@.take(pre@.len() as int) == pre@),
{
    if pre.len() > cs.len() {
        return false;
    }
    let n = pre.len();
    for i in 0..n
        invariant
            n == pre@.len(),
            n <= cs@.len(),
            forall|j: int| 0 <= j < i ==> cs@[j] == pre@[j],
    {
        if cs[i] != pre[i] {
            assert(cs@.take(n as int)[i as int] != pre@[i as int]);
            return false;
        }
    }
    assert(cs@.take(n as int) == pre@);
    true
}

/// The address (`host:port`) of the API when `WOTWOT_URL` is not set.
pub fn default_address() -> (r: String)
    ensures
        r@ == api_address(None),
{
    let mut cs = chars_of("127.0.0.1:");
    extend_chars(&mut cs, &decimal_chars(DEFAULT_PORT as u128));
    string_of(&cs)
}

/// The socket address (`host:port`) the command-line client connects to,
/// given the value of `WOTWOT_URL` if it is set (see [`api_address`]).
pub fn sock_path(wotwot_url: Option<&str>) -> (r: String)
    ensures
        r@ == api_address(match wotwot_url {
            Some(u) => Some(u@),
            None => None,
        }),
{
    match wotwot_url {
        None => default_address(),
        Some(u) => {
            let cs = chars_of(u);
            let pre = chars_of("http://");
            let rest = if cs.len() >= 7 && has_prefix(&cs, &pre) {
                slice_chars(&cs, 7, cs.len())
            } else {
                slice_chars(&cs, 0, cs.len())
            };
            proof {
                reveal_strlit("http://");
                let ghost want = if cs@.len() >= 7 && cs@.take(7) == "http://"@ {
                    cs@.skip(7)
                } else {
                    cs@
                };
                assert(cs@.subrange(0, cs@.len() as int) == cs@);
                if cs@.len() >= 7 {
                    assert(cs@.subrange(7, cs@.len() as int) == cs@.skip(7));
                }
                assert(rest@ == want);
            }
            match find_char(&rest, '/') {
                Some(i) => {
                    let head = slice_chars(&rest, 0, i);
                    assert(rest@.subrange(0, i as int) == rest@.take(i as int));
                    string_of(&head)
                },
                None => string_of(&rest),
            }
        },
    }
}

/// Joining puts the component after the base with exactly one `/` between
/// them: nothing is added when the base is empty or already ends with
/// `/`, one `/` otherwise.
pub proof fn law_join_one_separator(base: Seq<char>, part: Seq<char>)
    ensures
        path_join(base, part).skip(path_join(base, part).len() - part.len()) == part,
        path_join(base, part).take(base.len() as int) == base,
        path_join(base, part).len() == base.len() + part.len() + if base.len() > 0 && base.last()
            != '/' {
            1int
        } else {
            0int
        },
        base.len() > 0 && base.last() != '/' ==> path_join(base, part)[base.len() as int] == '/',
{
    reveal_strlit("/");
    assert("/"@.len() == 1 && "/"@[0] == '/');
    let r = path_join(base, part);
    if base.len() == 0 {
        assert(r.skip(0) == part);
        assert(r.take(0) == base);
    } else if base.last() == '/' {
        assert(r.skip(base.len() as int) == part);
        assert(r.take(base.len() as int) == base);
    } else {
        let b1 = base + "/"@;
        assert(r == b1 + part);
        assert(b1[base.len() as int] == '/');
        assert(r[base.len() as int] == b1[base.len() as int]);
        assert(r.skip(b1.len() as int) == part);
        assert(r.take(base.len() as int) == base);
    }
}

/// Without `WOTWOT_URL` the client reaches the API on the loopback address
/// at the default port 47291; with `WOTWOT_URL` set to `http://host:port`
/// (with or without a path after it) it reaches `host:port`, and a value
/// without the `http://` prefix is taken as the address itself.
pub proof fn law_api_address(hostport: Seq<char>, tail: Seq<char>)
    requires
        forall|j: int| 0 <= j < hostport.len() ==> #[trigger] hostport[j] != '/',
        tail.len() == 0 || tail[0] == '/',
    ensures
        api_address(None) == "127.0.0.1:"@ + decimal(47291),
        crate::text::digits_value(decimal(47291)) == 47291,
        api_address(Some("http://"@ + hostport + tail)) == hostport,
        !((hostport + tail).len() >= 7 && (hostport + tail).take(7) == "http://"@) ==> api_address(
            Some(hostport + tail),
        ) == hostport,
{
    crate::text::law_decimal_reads_back(47291);
    reveal_strlit("http://");
    let u = "http://"@ + hostport + tail;
    assert(u.take(7) == "http://"@);
    assert(u.skip(7) == hostport + tail);
    let r = hostport + tail;
    if tail.len() > 0 {
        assert(crate::text::is_first_char(r, '/', hostport.len() as int)) by {
            assert forall|j: int| 0 <= j < hostport.len() implies #[trigger] r[j] != '/' by {
                assert(r[j] == hostport[j]);
            }
        }
        crate::text::lemma_first_char_unique(r, '/', hostport.len() as int);
        assert(r.take(hostport.len() as int) == hostport);
    } else {
        assert(r == hostport);
        crate::text::lemma_first_char_none(r, '/');
    }
}

} // verus!
