//! Command-line decisions: which config file to use and the arguments handed
//! to `docker compose`.
use vstd::prelude::*;
use crate::integration::svs;

verus! {

/// The message for a missing config file.
pub open spec fn missing_config_message() -> Seq<char> {
    "config.dyard not found. Provide with --config flag or create config.dyard in current directory"@
}

/// The config file: the one given, else `config.dyard` where it exists
/// (`default_exists`), else the error message.
pub fn find_config(config: Option<String>, default_exists: bool) -> (r: Result<String, String>)
    ensures
        config matches Some(p) ==> (r matches Ok(x) && x@ == p@),
        config is None && default_exists ==> (r matches Ok(x) && x@ == "config.dyard"@),
        config is None && !default_exists ==> (r matches Err(e) && e@ == missing_config_message()),
{
    match config {
        Some(p) => Ok(p),
        None => if default_exists {
            Ok("config.dyard".to_owned())
        } else {
            Err(
                "config.dyard not found. Provide with --config flag or create config.dyard in current directory".to_owned(),
            )
        },
    }
}

/// `docker` arguments for a compose command on a file:
/// `compose -f <file> <cmd...>`, then `-d` when detached.
pub fn compose_with_file(compose_file: &str, cmd: &Vec<String>, detached: bool) -> (r: Vec<String>)
    ensures
        svs(r@) == seq!["compose"@, "-f"@, compose_file@] + svs(cmd@) + if detached {
            seq!["-d"@]
        } else {
            seq![]
        },
{
    let mut r: Vec<String> = vec!["compose".to_owned(), "-f".to_owned(), compose_file.to_owned()];
    assert(svs(r@) =~= seq!["compose"@, "-f"@, compose_file@]);
    let ghost base = svs(r@);
    let mut i: usize = 0;
    while i < cmd.len()
        invariant
            i <= cmd.len(),
            svs(r@) == base + svs(cmd@).take(i as int),
        decreases cmd.len() - i,
    {
        let ghost before = svs(r@);
        r.push(cmd[i].clone());
        assert(svs(r@) =~= before.push(cmd@[i as int]@));
        assert(svs(cmd@).take(i as int + 1) =~= svs(cmd@).take(i as int).push(cmd@[i as int]@));
        i = i + 1;
    }
    assert(svs(cmd@).take(i as int) =~= svs(cmd@));
    let ghost before = svs(r@);
    if detached {
        r.push("-d".to_owned());
        assert(svs(r@) =~= before + seq!["-d"@]);
    } else {
        assert(svs(r@) =~= before + Seq::<Seq<char>>::empty());
    }
    r
}

/// `docker` arguments for the logs command: `compose logs`, then `-f` when
/// following, `--tail <n>` when given, and the service when given.
pub fn handle_logs(service: Option<String>, follow: bool, tail: Option<String>) -> (r: Vec<String>)
    ensures
        svs(r@) == seq!["compose"@, "logs"@] + (if follow {
            seq!["-f"@]
        } else {
            seq![]
        }) + match tail {
            Some(t) => seq!["--tail"@, t@],
            None => seq![],
        } + match service {
            Some(s) => seq![s@],
            None => seq![],
        },
{
    let mut r: Vec<String> = vec!["compose".to_owned(), "logs".to_owned()];
    let ghost a = svs(r@);
    if follow {
        r.push("-f".to_owned());
    }
    let ghost b = svs(r@);
    assert(b =~= a + if follow {
        seq!["-f"@]
    } else {
        seq![]
    });
    match &tail {
        Some(t) => {
            r.push("--tail".to_owned());
            r.push(t.clone());
        },
        None => {},
    }
    let ghost c = svs(r@);
    assert(c =~= b + match tail {
        Some(t) => seq!["--tail"@, t@],
        None => seq![],
    });
    match &service {
        Some(s) => {
            r.push(s.clone());
        },
        None => {},
    }
    assert(svs(r@) =~= c + match service {
        Some(s) => seq![s@],
        None => seq![],
    });
    assert(a =~= seq!["compose"@, "logs"@]);
    r
}

} // verus!
