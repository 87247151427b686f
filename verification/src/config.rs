//! Command-line arguments of the server and the client.
use vstd::prelude::*;
use crate::text::{chars_of, eq_lit};

verus! {

/// The server's settings.
#[derive(Debug, Clone)]
pub struct ServerConfig {
    /// The address to listen on, such as `127.0.0.1:7878`.
    pub addr: String,
    /// The path of the data file (the append log).
    pub data_file: String,
}

/// The client's settings.
#[derive(Debug, Clone)]
pub struct ClientConfig {
    /// The server's address.
    pub addr: String,
}

/// The address used when none is given.
pub open spec fn default_addr() -> Seq<char> {
    "127.0.0.1:7878"@
}

/// The data file used when none is given.
pub open spec fn default_data_file() -> Seq<char> {
    "data/rkv.log"@
}

/// The server's usage line.
pub open spec fn server_usage() -> Seq<char> {
    "用法: rkv-server [--addr 127.0.0.1:7878] [--data data/rkv.log]"@
}

/// The client's usage line.
pub open spec fn client_usage() -> Seq<char> {
    "用法: rkv-client [--addr 127.0.0.1:7878]"@
}

/// The message for an argument that is not an option.
pub open spec fn unknown_arg_msg(arg: Seq<char>, usage: Seq<char>) -> Seq<char> {
    "未知参数: "@ + arg + "\n"@ + usage
}

/// The server settings that `args[i..]` give, starting from `addr` and `data`: each of
/// `--addr` and `--data` takes the next argument and the last one given wins; `-h` or
/// `--help` asks for the usage line; anything else is an error.
pub open spec fn server_settings(
    args: Seq<Seq<char>>,
    i: int,
    addr: Seq<char>,
    data: Seq<char>,
) -> Result<(Seq<char>, Seq<char>), Seq<char>>
    decreases args.len() - i,
{
    if i < 0 || i >= args.len() {
        Ok((addr, data))
    } else if args[i] == "--addr"@ {
        if i + 1 < args.len() {
            server_settings(args, i + 2, args[i + 1], data)
        } else {
            Err("--addr 缺少参数"@)
        }
    } else if args[i] == "--data"@ {
        if i + 1 < args.len() {
            server_settings(args, i + 2, addr, args[i + 1])
        } else {
            Err("--data 缺少参数"@)
        }
    } else if args[i] == "-h"@ || args[i] == "--help"@ {
        Err(server_usage())
    } else {
        Err(unknown_arg_msg(args[i], server_usage()))
    }
}

/// The client settings that `args[i..]` give, starting from `addr`; as for the server, with
/// `--addr` the only option.
pub open spec fn client_settings(args: Seq<Seq<char>>, i: int, addr: Seq<char>) -> Result<
    Seq<char>,
    Seq<char>,
>
    decreases args.len() - i,
{
    if i < 0 || i >= args.len() {
        Ok(addr)
    } else if args[i] == "--addr"@ {
        if i + 1 < args.len() {
            client_settings(args, i + 2, args[i + 1])
        } else {
            Err("--addr 缺少参数"@)
        }
    } else if args[i] == "-h"@ || args[i] == "--help"@ {
        Err(client_usage())
    } else {
        Err(unknown_arg_msg(args[i], client_usage()))
    }
}

/// The views of a list of strings.
pub open spec fn arg_views(args: Seq<String>) -> Seq<Seq<char>> {
    args.map_values(|a: String| a@)
}

/// Whether `a` is the option `-h` or `--help`.
fn is_help(a: &[char]) -> (b: bool)
    ensures
        b == (a@ == "-h"@ || a@ == "--help"@),
{
    eq_lit(a, "-h") || eq_lit(a, "--help")
}

/// The message for the unknown argument `arg`.
fn unknown_arg(arg: &String, usage: String) -> (r: String)
    ensures
        r@ == unknown_arg_msg(arg@, usage@),
{
    let mut m = String::from_str("未知参数: ");
    m.append(arg.as_str());
    m.append("\n");
    m.append(usage.as_str());
    proof {
        reveal_strlit("\n");
    }
    m
}

impl Default for ServerConfig {
    fn default() -> (r: Self)
        ensures
            r.addr@ == default_addr(),
            r.data_file@ == default_data_file(),
    {
        ServerConfig {
            addr: String::from_str("127.0.0.1:7878"),
            data_file: String::from_str("data/rkv.log"),
        }
    }
}

impl ServerConfig {
    /// Reads the server's arguments (the program name left out): `--addr <ip:port>` and
    /// `--data <file>`; `-h` or `--help` gives the usage line as the error.
    pub fn from_args(args: Vec<String>) -> (r: core::result::Result<ServerConfig, String>)
        ensures
            match r {
                Ok(c) => server_settings(arg_views(args@), 0, default_addr(), default_data_file())
                    == Ok::<(Seq<char>, Seq<char>), Seq<char>>((c.addr@, c.data_file@)),
                Err(m) => server_settings(arg_views(args@), 0, default_addr(), default_data_file())
                    == Err::<(Seq<char>, Seq<char>), Seq<char>>(m@),
            },
    {
        let mut cfg = ServerConfig::default();
        let mut i: usize = 0;
        let ghost all = arg_views(args@);
        while i < args.len()
            invariant
                all == arg_views(args@),
                i <= args@.len(),
                server_settings(all, 0, default_addr(), default_data_file()) == server_settings(
                    all,
                    i as int,
                    cfg.addr@,
                    cfg.data_file@,
                ),
            decreases args@.len() - i,
        {
            let a = chars_of(args[i].as_str());
            assert(all[i as int] == a@);
            if eq_lit(&a, "--addr") {
                if i + 1 < args.len() {
                    cfg.addr = args[i + 1].clone();
                    assert(all[i + 1] == cfg.addr@);
                    i = i + 2;
                } else {
                    return Err(String::from_str("--addr 缺少参数"));
                }
            } else if eq_lit(&a, "--data") {
                if i + 1 < args.len() {
                    cfg.data_file = args[i + 1].clone();
                    assert(all[i + 1] == cfg.data_file@);
                    i = i + 2;
                } else {
                    return Err(String::from_str("--data 缺少参数"));
                }
            } else if is_help(&a) {
                return Err(ServerConfig::usage());
            } else {
                return Err(unknown_arg(&args[i], ServerConfig::usage()));
            }
        }
        Ok(cfg)
    }

    /// The usage line.
    pub fn usage() -> (r: String)
        ensures
            r@ == server_usage(),
    {
        String::from_str("用法: rkv-server [--addr 127.0.0.1:7878] [--data data/rkv.log]")
    }
}

impl Default for ClientConfig {
    fn default() -> (r: Self)
        ensures
            r.addr@ == default_addr(),
    {
        ClientConfig { addr: String::from_str("127.0.0.1:7878") }
    }
}

impl ClientConfig {
    /// Reads the client's arguments (the program name left out): `--addr <ip:port>`; `-h`
    /// or `--help` gives the usage line as the error.
    pub fn from_args(args: Vec<String>) -> (r: core::result::Result<ClientConfig, String>)
        ensures
            match r {
                Ok(c) => client_settings(arg_views(args@), 0, default_addr()) == Ok::<
                    Seq<char>,
                    Seq<char>,
                >(c.addr@),
                Err(m) => client_settings(arg_views(args@), 0, default_addr()) == Err::<
                    Seq<char>,
                    Seq<char>,
                >(m@),
            },
    {
        let mut cfg = ClientConfig::default();
        let mut i: usize = 0;
        let ghost all = arg_views(args@);
        while i < args.len()
            invariant
                all == arg_views(args@),
                i <= args@.len(),
                client_settings(all, 0, default_addr()) == client_settings(
                    all,
                    i as int,
                    cfg.addr@,
                ),
            decreases args@.len() - i,
        {
            let a = chars_of(args[i].as_str());
            assert(all[i as int] == a@);
            if eq_lit(&a, "--addr") {
                if i + 1 < args.len() {
                    cfg.addr = args[i + 1].clone();
                    assert(all[i + 1] == cfg.addr@);
                    i = i + 2;
                } else {
                    return Err(String::from_str("--addr 缺少参数"));
                }
            } else if is_help(&a) {
                return Err(ClientConfig::usage());
            } else {
                return Err(unknown_arg(&args[i], ClientConfig::usage()));
            }
        }
        Ok(cfg)
    }

    /// The usage line.
    pub fn usage() -> (r: String)
        ensures
            r@ == client_usage(),
    {
        String::from_str("用法: rkv-client [--addr 127.0.0.1:7878]")
    }
}

/// Each option sets its own setting only. The data file the server settings give is the one
/// they start from or the argument after some `--data`; the address is the one they start
/// from or the argument after some `--addr`.
pub proof fn lemma_server_options_independent(
    args: Seq<Seq<char>>,
    i: int,
    addr: Seq<char>,
    data: Seq<char>,
)
    requires
        0 <= i,
    ensures
        server_settings(args, i, addr, data) matches Ok((a, d)) ==> (d == data || exists|k: int|
            #![trigger args[k]]
            i <= k && k + 1 < args.len() && args[k] == "--data"@ && d == args[k + 1]),
        server_settings(args, i, addr, data) matches Ok((a, d)) ==> (a == addr || exists|k: int|
            #![trigger args[k]]
            i <= k && k + 1 < args.len() && args[k] == "--addr"@ && a == args[k + 1]),
        !(exists|k: int| #![trigger args[k]] i <= k < args.len() && args[k] == "--data"@) ==> (
        server_settings(args, i, addr, data) matches Ok((a, d)) ==> d == data),
        !(exists|k: int| #![trigger args[k]] i <= k < args.len() && args[k] == "--addr"@) ==> (
        server_settings(args, i, addr, data) matches Ok((a, d)) ==> a == addr),
    decreases args.len() - i,
{
    if i < args.len() {
        if args[i] == "--addr"@ && i + 1 < args.len() {
            lemma_server_options_independent(args, i + 2, args[i + 1], data);
        } else if args[i] == "--data"@ && i + 1 < args.len() {
            lemma_server_options_independent(args, i + 2, addr, args[i + 1]);
        }
    }
}

/// The client's address is the default or the argument after some `--addr`.
pub proof fn lemma_client_address(args: Seq<Seq<char>>, i: int, addr: Seq<char>)
    requires
        0 <= i,
    ensures
        client_settings(args, i, addr) matches Ok(a) ==> (a == addr || exists|k: int|
            #![trigger args[k]]
            i <= k && k + 1 < args.len() && args[k] == "--addr"@ && a == args[k + 1]),
    decreases args.len() - i,
{
    if i < args.len() && args[i] == "--addr"@ && i + 1 < args.len() {
        lemma_client_address(args, i + 2, args[i + 1]);
    }
}

} // verus!
