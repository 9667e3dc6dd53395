//! Command-line configuration.
//!
//! A run takes a source root and a destination root plus option flags, or
//! `--server` alone to speak the wire protocol over standard input and
//! output. An unknown flag, a missing root or a bad port value rejects the
//! whole invocation.

use vstd::prelude::*;

use crate::meta::string_views;
use crate::wire::{dec_value, span_digits};
use vstd::utf8::encode_utf8;

verus! {

/// What a run was asked to do.
pub struct Config {
    pub server_mode: bool,
    pub source: String,
    pub destination: String,
    pub dry_run: bool,
    pub verbose: bool,
    pub checksums: bool,
    pub use_external_process: bool,
    pub ssh_port: u64,
}

/// Mathematical image of `Config`.
#[verifier::ext_equal]
pub ghost struct ConfigV {
    pub server_mode: bool,
    pub source: Seq<char>,
    pub destination: Seq<char>,
    pub dry_run: bool,
    pub verbose: bool,
    pub checksums: bool,
    pub use_external_process: bool,
    pub ssh_port: u64,
}

impl View for Config {
    type V = ConfigV;

    open spec fn view(&self) -> ConfigV {
        ConfigV {
            server_mode: self.server_mode,
            source: self.source@,
            destination: self.destination@,
            dry_run: self.dry_run,
            verbose: self.verbose,
            checksums: self.checksums,
            use_external_process: self.use_external_process,
            ssh_port: self.ssh_port,
        }
    }
}

/// The configuration before any argument is read.
pub open spec fn spec_default_config() -> ConfigV {
    ConfigV {
        server_mode: false,
        source: Seq::empty(),
        destination: Seq::empty(),
        dry_run: false,
        verbose: false,
        checksums: true,
        use_external_process: false,
        ssh_port: 22,
    }
}

/// An argument that looks like a flag: its bytes start with `--`.
pub open spec fn spec_flag_like(a: Seq<char>) -> bool {
    encode_utf8(a).len() >= 2 && encode_utf8(a)[0] == 45 && encode_utf8(a)[1] == 45
}

/// The port number an argument denotes, when it is all decimal digits.
pub open spec fn spec_port_of(a: Seq<char>) -> Option<u64> {
    let b = encode_utf8(a);
    if b.len() > 0 && span_digits(b, 0) == b.len() && dec_value(b) <= u64::MAX {
        Some(dec_value(b) as u64)
    } else {
        None
    }
}

/// Read the arguments after the program name: known flags set their options,
/// `--ssh-port` takes the next argument as its value, an unknown flag
/// rejects the invocation, and anything else is a root path — first the
/// source, then the destination, a third being one too many.
pub open spec fn spec_parse_rest(args: Seq<Seq<char>>, c: ConfigV, npos: int) -> Option<ConfigV>
    decreases args.len(),
{
    if args.len() == 0 {
        if npos == 2 {
            Some(c)
        } else {
            None
        }
    } else {
        let a = args[0];
        if a == "--dry-run"@ {
            spec_parse_rest(args.skip(1), ConfigV { dry_run: true, ..c }, npos)
        } else if a == "--verbose"@ {
            spec_parse_rest(args.skip(1), ConfigV { verbose: true, ..c }, npos)
        } else if a == "--no-checksums"@ {
            spec_parse_rest(args.skip(1), ConfigV { checksums: false, ..c }, npos)
        } else if a == "--use-external-process"@ {
            spec_parse_rest(args.skip(1), ConfigV { use_external_process: true, ..c }, npos)
        } else if a == "--ssh-port"@ {
            if args.len() < 2 {
                None
            } else {
                match spec_port_of(args[1]) {
                    Option::Some(v) => spec_parse_rest(
                        args.skip(2),
                        ConfigV { ssh_port: v, ..c },
                        npos,
                    ),
                    Option::None => None,
                }
            }
        } else if spec_flag_like(a) {
            None
        } else if npos == 0 {
            spec_parse_rest(args.skip(1), ConfigV { source: a, ..c }, 1)
        } else if npos == 1 {
            spec_parse_rest(args.skip(1), ConfigV { destination: a, ..c }, 2)
        } else {
            None
        }
    }
}

/// The configuration a whole argument vector (program name first) asks for:
/// `--server` alone selects server mode; otherwise at least a source and a
/// destination root must follow the program name.
pub open spec fn spec_parse_args(args: Seq<Seq<char>>) -> Option<ConfigV> {
    if args.len() == 2 && args[1] == "--server"@ {
        Some(ConfigV { server_mode: true, ..spec_default_config() })
    } else if args.len() < 3 {
        None
    } else {
        spec_parse_rest(args.skip(1), spec_default_config(), 0)
    }
}

/// Whether the argument's bytes start with `--`.
fn flag_like(a: &String) -> (r: bool)
    ensures
        r == spec_flag_like(a@),
{
    let b = a.as_str().as_bytes();
    b.len() >= 2 && b[0] == 45 && b[1] == 45
}

/// The port number an argument denotes, when it is all decimal digits.
fn port_of(a: &String) -> (r: Option<u64>)
    ensures
        r == spec_port_of(a@),
{
    let b = a.as_str().as_bytes();
    let v = crate::wire::parse_dec(b, 0);
    match v {
        Option::Some((value, end)) => {
            if end == b.len() && b.len() > 0 {
                proof {
                    assert(b@.subrange(0, end as int) =~= b@);
                }
                Some(value)
            } else {
                None
            }
        },
        Option::None => {
            proof {
                crate::wire::lemma_span_digits(b@, 0);
                if b@.len() > 0 && span_digits(b@, 0) == b@.len() {
                    assert(b@.subrange(0, b@.len() as int) =~= b@);
                }
            }
            None
        },
    }
}

/// Read the arguments from position `i` on. See `spec_parse_rest`.
fn parse_rest(args: &Vec<String>, i: usize, c: Config, npos: u8) -> (r: Option<Config>)
    requires
        i <= args@.len(),
    ensures
        ({
            let sr = spec_parse_rest(string_views(args@).skip(i as int), c@, npos as int);
            match r {
                Some(rc) => sr == Some(rc@),
                None => sr is None,
            }
        }),
    decreases args@.len() - i,
{
    let ghost rest = string_views(args@).skip(i as int);
    if i == args.len() {
        if npos == 2 {
            return Some(c);
        }
        return None;
    }
    let a = &args[i];
    proof {
        assert(rest[0] == a@);
        assert(rest.skip(1) =~= string_views(args@).skip(i as int + 1));
    }
    if *a == String::from_str("--dry-run") {
        return parse_rest(args, i + 1, Config { dry_run: true, ..c }, npos);
    }
    if *a == String::from_str("--verbose") {
        return parse_rest(args, i + 1, Config { verbose: true, ..c }, npos);
    }
    if *a == String::from_str("--no-checksums") {
        return parse_rest(args, i + 1, Config { checksums: false, ..c }, npos);
    }
    if *a == String::from_str("--use-external-process") {
        return parse_rest(args, i + 1, Config { use_external_process: true, ..c }, npos);
    }
    if *a == String::from_str("--ssh-port") {
        if i + 1 >= args.len() {
            return None;
        }
        proof {
            assert(rest[1] == args@[i as int + 1]@);
            assert(rest.len() >= 2);
            assert(rest.skip(2) =~= string_views(args@).skip(i as int + 2));
        }
        let v = port_of(&args[i + 1]);
        match v {
            Option::Some(value) => {
                return parse_rest(args, i + 2, Config { ssh_port: value, ..c }, npos);
            },
            Option::None => {
                return None;
            },
        }
    }
    if flag_like(a) {
        return None;
    }
    if npos == 0 {
        return parse_rest(args, i + 1, Config { source: a.clone(), ..c }, 1);
    }
    if npos == 1 {
        return parse_rest(args, i + 1, Config { destination: a.clone(), ..c }, 2);
    }
    None
}

/// Read a whole argument vector, program name first. See `spec_parse_args`.
pub fn parse_args(args: &Vec<String>) -> (r: Option<Config>)
    ensures
        ({
            let sr = spec_parse_args(string_views(args@));
            match r {
                Some(rc) => sr == Some(rc@),
                None => sr is None,
            }
        }),
{
    if args.len() == 2 && args[1] == String::from_str("--server") {
        proof {
            assert(string_views(args@)[1] == args@[1]@);
        }
        let c = Config {
            server_mode: true,
            source: String::new(),
            destination: String::new(),
            dry_run: false,
            verbose: false,
            checksums: true,
            use_external_process: false,
            ssh_port: 22,
        };
        proof {
            assert(c@ =~= (ConfigV { server_mode: true, ..spec_default_config() }));
        }
        return Some(c);
    }
    proof {
        if string_views(args@).len() == 2 && string_views(args@)[1] == "--server"@ {
            assert(args@[1]@ == "--server"@);
        }
    }
    if args.len() < 3 {
        return None;
    }
    let c = Config {
        server_mode: false,
        source: String::new(),
        destination: String::new(),
        dry_run: false,
        verbose: false,
        checksums: true,
        use_external_process: false,
        ssh_port: 22,
    };
    proof {
        assert(c@ =~= spec_default_config());
    }
    parse_rest(args, 1, c, 0)
}

} // verus!
