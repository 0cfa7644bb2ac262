//! `calisto serve`: where the application is served.
use vstd::prelude::*;
use crate::protocol::request;
use crate::text;
use crate::text::str_eq;

verus! {

/// Where the application is served.
pub struct ServeArgs {
    pub port: String,
    pub host: String,
}

/// Where the application is served, as contracts see it.
#[verifier::ext_equal]
pub struct Place {
    pub port: Seq<char>,
    pub host: Seq<char>,
}

impl View for ServeArgs {
    type V = Place;

    open spec fn view(&self) -> Place {
        Place { port: self.port@, host: self.host@ }
    }
}

/// What the arguments say, where `p` has been said before them.
pub open spec fn read_args(args: Seq<Seq<char>>, p: Place) -> Result<Place, Seq<char>>
    decreases args.len(),
{
    if args.len() == 0 {
        Ok(p)
    } else if args[0] == "-p"@ || args[0] == "--port"@ {
        if args.len() < 2 {
            Err("calisto: -p precisa de um valor"@)
        } else {
            read_args(args.skip(2), Place { port: args[1], ..p })
        }
    } else if args[0] == "-o"@ || args[0] == "--host"@ {
        if args.len() < 2 {
            Err("calisto: -o precisa de um valor"@)
        } else {
            read_args(args.skip(2), Place { host: args[1], ..p })
        }
    } else {
        Err("calisto: argumento inesperado '"@ + args[0] + "'"@)
    }
}

/// Where the application is served without arguments.
pub open spec fn default_place() -> Place {
    Place { port: "3000"@, host: "127.0.0.1"@ }
}

/// Reads the arguments of the command.
pub fn parse_serve_args(args: &Vec<String>) -> (r: Result<ServeArgs, String>)
    ensures
        match read_args(text::views(args@), default_place()) {
            Ok(p) => r matches Ok(x) && x@ == p,
            Err(m) => r matches Err(e) && e@ == m,
        },
{
    let ghost all = text::views(args@);
    let mut a = ServeArgs { port: "3000".to_string(), host: "127.0.0.1".to_string() };
    let mut i: usize = 0;
    assert(all.skip(0) =~= all);
    while i < args.len()
        invariant
            i <= args@.len(),
            all == text::views(args@),
            read_args(all.skip(i as int), a@) == read_args(all, default_place()),
        decreases args@.len() - i,
    {
        let ghost left = all.skip(i as int);
        assert(left[0] == args@[i as int]@);
        assert(left.len() >= 2 ==> left.skip(2) =~= all.skip(i + 2));
        let f = args[i].as_str();
        if str_eq(f, "-p") || str_eq(f, "--port") {
            if args.len() - i < 2 {
                return Err("calisto: -p precisa de um valor".to_string());
            }
            i += 1;
            assert(left[1] == args@[i as int]@);
            a.port = args[i].clone();
        } else if str_eq(f, "-o") || str_eq(f, "--host") {
            if args.len() - i < 2 {
                return Err("calisto: -o precisa de um valor".to_string());
            }
            i += 1;
            assert(left[1] == args@[i as int]@);
            a.host = args[i].clone();
        } else {
            let mut m = "calisto: argumento inesperado '".to_string();
            m.append(f);
            m.append("'");
            return Err(m);
        }
        i += 1;
    }
    Ok(a)
}

/// The variables that tell the server where to listen.
pub fn serve_env(a: &ServeArgs) -> (r: Vec<(String, String)>)
    ensures
        request::pair_views(r@) == seq![
            ("CALISTO_SERVE_PORT"@, a@.port),
            ("CALISTO_SERVE_HOST"@, a@.host),
        ],
{
    let mut r: Vec<(String, String)> = Vec::new();
    r.push(("CALISTO_SERVE_PORT".to_string(), a.port.clone()));
    r.push(("CALISTO_SERVE_HOST".to_string(), a.host.clone()));
    assert(request::pair_views(r@) =~= seq![
        ("CALISTO_SERVE_PORT"@, a@.port),
        ("CALISTO_SERVE_HOST"@, a@.host),
    ]);
    r
}

/// What is said where there is no application to serve.
pub fn no_rack_app(root: &str) -> (r: String)
    ensures
        r@ == "calisto serve: "@ + root@ + " nao tem config.ru (Rack app esperado)"@,
{
    let mut r = "calisto serve: ".to_string();
    r.append(root);
    r.append(" nao tem config.ru (Rack app esperado)");
    r
}

/// The port is what stands behind `-p` or `--port`, and the host what stands
/// behind `-o` or `--host`; the last one of each counts, and anything else is
/// refused.
pub proof fn law_serve_args(v: Seq<char>, rest: Seq<Seq<char>>, p: Place, other: Seq<char>)
    requires
        other != "-p"@ && other != "--port"@ && other != "-o"@ && other != "--host"@,
    ensures
        read_args(seq!["-p"@, v] + rest, p) == read_args(rest, Place { port: v, host: p.host }),
        read_args(seq!["--port"@, v] + rest, p) == read_args(rest, Place { port: v, host: p.host }),
        read_args(seq!["-o"@, v] + rest, p) == read_args(rest, Place { port: p.port, host: v }),
        read_args(seq!["--host"@, v] + rest, p) == read_args(rest, Place { port: p.port, host: v }),
        read_args(seq!["-p"@], p) is Err,
        read_args(seq!["--port"@], p) is Err,
        read_args(seq!["-o"@], p) is Err,
        read_args(seq!["--host"@], p) is Err,
        read_args(seq![other] + rest, p) is Err,
        read_args(Seq::empty(), p) == Ok::<Place, Seq<char>>(p),
{
    reveal_strlit("-p");
    reveal_strlit("--port");
    reveal_strlit("-o");
    reveal_strlit("--host");
    assert("-p"@[1] == 'p' && "-o"@[1] == 'o' && "--port"@[2] == 'p' && "--host"@[2] == 'h');
    assert("-p"@.len() == 2 && "-o"@.len() == 2 && "--port"@.len() == 6 && "--host"@.len() == 6);
    assert((seq!["-p"@, v] + rest).skip(2) =~= rest);
    assert((seq!["--port"@, v] + rest).skip(2) =~= rest);
    assert((seq!["-o"@, v] + rest).skip(2) =~= rest);
    assert((seq!["--host"@, v] + rest).skip(2) =~= rest);
    assert((seq!["-p"@, v] + rest)[1] == v);
    assert((seq!["--port"@, v] + rest)[1] == v);
    assert((seq!["-o"@, v] + rest)[1] == v);
    assert((seq!["--host"@, v] + rest)[1] == v);
}

/// Without arguments the application is served on this machine alone, on port
/// 3000.
pub proof fn law_default_place()
    ensures
        default_place().port == "3000"@,
        default_place().host == "127.0.0.1"@,
{
}

} // verus!
