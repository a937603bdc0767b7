//! Command-line intents and their validation.
use vstd::prelude::*;
use crate::codec::{encode_spec, lines_of, views, Credential};
use crate::store::{
    add_credential, delete_credential, get_credential, has_record, kept_lines, list_credentials,
    listed_names, matching_credentials, models, terminated, DeleteOutcome,
};

verus! {

/// Parameters of `list`.
pub struct ListParams;

/// Parameters of `get`: the name looked up.
pub struct GetParams(pub String);

/// Parameters of `add`; an empty username stands for none.
pub struct AddParams {
    pub name: String,
    pub username: String,
    pub password: String,
}

/// Parameters of `delete`: the name removed.
pub struct DeleteParams(pub String);

/// Parameters of an unrecognised command.
pub struct InvalidParams;


/// The command a vault invocation names.
#[derive(Clone, Copy, Debug, PartialEq, Eq)]
pub enum Action {
    Get,
    Add,
    List,
    Delete,
    Invalid,
}

/// A validated intent: the command and its parameters.
pub enum Params {
    List(ListParams),
    Get(GetParams),
    Add(AddParams),
    Delete(DeleteParams),
    Invalid(InvalidParams),
}

/// What an invocation asks of the vault.
pub struct Config {
    pub action: Action,
    pub params: Params,
}

/// A command given the wrong number of parameters.
pub struct UsageError {
    pub action: Action,
    pub count: usize,
}

pub open spec fn word_get() -> Seq<char> {
    seq!['g', 'e', 't']
}

pub open spec fn word_add() -> Seq<char> {
    seq!['a', 'd', 'd']
}

pub open spec fn word_list() -> Seq<char> {
    seq!['l', 'i', 's', 't']
}

pub open spec fn word_delete() -> Seq<char> {
    seq!['d', 'e', 'l', 'e', 't', 'e']
}

/// The command named by the argument after the program's own name.
pub open spec fn action_of(args: Seq<Seq<char>>) -> Action {
    if args.len() <= 1 {
        Action::Invalid
    } else if args[1] == word_get() {
        Action::Get
    } else if args[1] == word_add() {
        Action::Add
    } else if args[1] == word_list() {
        Action::List
    } else if args[1] == word_delete() {
        Action::Delete
    } else {
        Action::Invalid
    }
}

/// How many parameters follow the command.
pub open spec fn param_count(args: Seq<Seq<char>>) -> int {
    if args.len() >= 2 {
        args.len() - 2
    } else {
        0
    }
}

/// The command takes that many parameters: one for `get` and `delete`, two or
/// three for `add`; `list` and unrecognised commands ignore theirs.
pub open spec fn count_accepted(a: Action, n: int) -> bool {
    match a {
        Action::Get => n == 1,
        Action::Delete => n == 1,
        Action::Add => n == 2 || n == 3,
        _ => true,
    }
}

/// The parameters hold the arguments of the command: for `add` with two
/// parameters, a name and a password and an empty username.
pub open spec fn params_hold(p: Params, a: Action, args: Seq<Seq<char>>) -> bool {
    match p {
        Params::List(_) => a == Action::List,
        Params::Get(g) => a == Action::Get && g.0@ == args[2],
        Params::Add(x) => a == Action::Add && x.name@ == args[2] && if args.len() == 4 {
            x.username@ == Seq::<char>::empty() && x.password@ == args[3]
        } else {
            x.username@ == args[3] && x.password@ == args[4]
        },
        Params::Delete(d) => a == Action::Delete && d.0@ == args[2],
        Params::Invalid(_) => a == Action::Invalid,
    }
}

impl Config {
    /// Reads the intent from the invocation's arguments, the program's name
    /// first. A command given the wrong number of parameters is a usage
    /// error.
    pub fn new(args: &Vec<String>) -> (r: Result<Config, UsageError>)
        ensures
            r is Ok <==> count_accepted(action_of(views(args@)), param_count(views(args@))),
            r matches Ok(c) ==> c.action == action_of(views(args@)) && params_hold(
                c.params,
                c.action,
                views(args@),
            ),
            r matches Err(e) ==> e.action == action_of(views(args@)) && e.count == param_count(
                views(args@),
            ),
    {
        let action = Config::get_config_enum(args.as_slice());
        match Config::get_params(args.as_slice()) {
            Ok(params) => Ok(Config { action, params }),
            Err(e) => Err(e),
        }
    }

    /// The command named by the invocation's arguments.
    pub fn get_config_enum(args: &[String]) -> (r: Action)
        ensures
            r == action_of(views(args@)),
    {
        if args.len() <= 1 {
            return Action::Invalid;
        }
        let ghost a = views(args@);
        assert(args[1]@ == a[1]);
        let get = String::from_str("get");
        let add = String::from_str("add");
        let list = String::from_str("list");
        let delete = String::from_str("delete");
        proof {
            reveal_strlit("get");
            reveal_strlit("add");
            reveal_strlit("list");
            reveal_strlit("delete");
            assert(get@ =~= word_get());
            assert(add@ =~= word_add());
            assert(list@ =~= word_list());
            assert(delete@ =~= word_delete());
        }
        let action = &args[1];
        if *action == get {
            Action::Get
        } else if *action == add {
            Action::Add
        } else if *action == list {
            Action::List
        } else if *action == delete {
            Action::Delete
        } else {
            Action::Invalid
        }
    }

    /// The parameters of the command, or a usage error where their number
    /// does not fit it.
    pub fn get_params(args: &[String]) -> (r: Result<Params, UsageError>)
        ensures
            r is Ok <==> count_accepted(action_of(views(args@)), param_count(views(args@))),
            r matches Ok(p) ==> params_hold(p, action_of(views(args@)), views(args@)),
            r matches Err(e) ==> e.action == action_of(views(args@)) && e.count == param_count(
                views(args@),
            ),
    {
        let ghost a = views(args@);
        let action = Config::get_config_enum(args);
        let count: usize = if args.len() >= 2 {
            args.len() - 2
        } else {
            0
        };
        match action {
            Action::List => Ok(Params::List(ListParams)),
            Action::Get => {
                if count == 1 {
                    assert(args[2]@ == a[2]);
                    Ok(Params::Get(GetParams(args[2].clone())))
                } else {
                    Err(UsageError { action: Action::Get, count })
                }
            },
            Action::Add => {
                if count == 2 {
                    assert(args[2]@ == a[2]);
                    assert(args[3]@ == a[3]);
                    Ok(
                        Params::Add(
                            AddParams {
                                name: args[2].clone(),
                                username: String::new(),
                                password: args[3].clone(),
                            },
                        ),
                    )
                } else if count == 3 {
                    assert(args[2]@ == a[2]);
                    assert(args[3]@ == a[3]);
                    assert(args[4]@ == a[4]);
                    Ok(
                        Params::Add(
                            AddParams {
                                name: args[2].clone(),
                                username: args[3].clone(),
                                password: args[4].clone(),
                            },
                        ),
                    )
                } else {
                    Err(UsageError { action: Action::Add, count })
                }
            },
            Action::Delete => {
                if count == 1 {
                    assert(args[2]@ == a[2]);
                    Ok(Params::Delete(DeleteParams(args[2].clone())))
                } else {
                    Err(UsageError { action: Action::Delete, count })
                }
            },
            Action::Invalid => Ok(Params::Invalid(InvalidParams)),
        }
    }
}


/// What carrying out an intent on the store's text gives back: the names to
/// list, the credentials found, the text to append, the text that replaces the
/// store, or nothing for an unrecognised command.
pub enum Outcome {
    Listed(Vec<String>),
    Found(Vec<Credential>),
    Append(String),
    Rewrite(DeleteOutcome),
    Invalid,
}

/// Carries out an intent on the store's current text.
pub fn run(config: &Config, content: &str) -> (r: Outcome)
    ensures
        config.params is List ==> (r matches Outcome::Listed(v) && views(v@) == listed_names(
            lines_of(content@),
        )),
        config.params matches Params::Get(g) ==> (r matches Outcome::Found(v) && models(v@)
            == matching_credentials(lines_of(content@), g.0@)),
        config.params matches Params::Add(p) ==> (r matches Outcome::Append(s) && s@
            == encode_spec(p.name@, p.username@, p.password@).push('\n')),
        config.params matches Params::Delete(d) ==> (r matches Outcome::Rewrite(o) && o.content@
            == terminated(kept_lines(lines_of(content@), d.0@)) && o.found == has_record(
            lines_of(content@),
            d.0@,
        )),
        config.params is Invalid ==> r is Invalid,
{
    match &config.params {
        Params::List(_) => Outcome::Listed(list_credentials(content)),
        Params::Add(p) => Outcome::Append(add_credential(p)),
        Params::Get(p) => Outcome::Found(get_credential(content, p)),
        Params::Delete(p) => Outcome::Rewrite(delete_credential(content, p)),
        Params::Invalid(_) => Outcome::Invalid,
    }
}

} // verus!
