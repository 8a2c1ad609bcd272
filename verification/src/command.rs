//! The command line: `check`, `run --image <file>`, `run --dir <dir>`,
//! `score --review <csv>`.
use vstd::prelude::*;
use crate::text::{concat2, str_eq};

verus! {

/// A subcommand and its argument.
pub enum Command {
    Check,
    RunImage(String),
    RunDir(String),
    Score(String),
}

pub enum CommandView {
    Check,
    RunImage(Seq<char>),
    RunDir(Seq<char>),
    Score(Seq<char>),
}

impl View for Command {
    type V = CommandView;

    open spec fn view(&self) -> CommandView {
        match self {
            Command::Check => CommandView::Check,
            Command::RunImage(p) => CommandView::RunImage(p@),
            Command::RunDir(d) => CommandView::RunDir(d@),
            Command::Score(p) => CommandView::Score(p@),
        }
    }
}

/// The `i`-th argument, if there is one.
pub open spec fn arg(args: Seq<String>, i: int) -> Option<Seq<char>> {
    if 0 <= i < args.len() {
        Some(args[i]@)
    } else {
        None
    }
}

/// What the arguments (the program name first) ask for, or the usage text.
pub open spec fn command_of(args: Seq<String>) -> Result<CommandView, Seq<char>> {
    let cmd = match arg(args, 1) {
        Some(c) => c,
        None => Seq::<char>::empty(),
    };
    if cmd == "check"@ {
        Ok(CommandView::Check)
    } else if cmd == "run"@ {
        if arg(args, 2) == Some("--image"@) {
            match arg(args, 3) {
                Some(p) => Ok(CommandView::RunImage(p)),
                None => Err("用法：run --image <图片路径>"@),
            }
        } else if arg(args, 2) == Some("--dir"@) {
            match arg(args, 3) {
                Some(d) => Ok(CommandView::RunDir(d)),
                None => Err("用法：run --dir <目录>"@),
            }
        } else {
            Err("用法：run --image <图> 或 run --dir <目录>"@)
        }
    } else if cmd == "score"@ {
        if arg(args, 2) == Some("--review"@) && arg(args, 3) is Some {
            Ok(CommandView::Score(arg(args, 3)->Some_0))
        } else {
            Err("用法：score --review <review.csv>"@)
        }
    } else if cmd == Seq::<char>::empty() {
        Err("用法：recognize-rs <check | run --image 图 | run --dir 目录 | score --review csv>"@)
    } else {
        Err("未知子命令："@ + cmd)
    }
}

fn arg_is(args: &Vec<String>, i: usize, word: &str) -> (r: bool)
    ensures
        r == (arg(args@, i as int) == Some(word@)),
{
    i < args.len() && str_eq(args[i].as_str(), word)
}

/// Reads the command line (the program name first).
pub fn parse_command(args: &Vec<String>) -> (r: Result<Command, String>)
    ensures
        match r {
            Ok(c) => command_of(args@) == Ok::<CommandView, Seq<char>>(c@),
            Err(m) => command_of(args@) == Err::<CommandView, Seq<char>>(m@),
        },
{
    let cmd: &str = if args.len() > 1 {
        args[1].as_str()
    } else {
        ""
    };
    proof {
        reveal_strlit("");
        assert(""@ =~= Seq::<char>::empty());
        let spec_cmd = match arg(args@, 1) {
            Some(c) => c,
            None => Seq::<char>::empty(),
        };
        assert(cmd@ == spec_cmd);
    }
    if str_eq(cmd, "check") {
        Ok(Command::Check)
    } else if str_eq(cmd, "run") {
        if arg_is(args, 2, "--image") {
            if args.len() > 3 {
                Ok(Command::RunImage(args[3].clone()))
            } else {
                Err(String::from_str("用法：run --image <图片路径>"))
            }
        } else if arg_is(args, 2, "--dir") {
            if args.len() > 3 {
                Ok(Command::RunDir(args[3].clone()))
            } else {
                Err(String::from_str("用法：run --dir <目录>"))
            }
        } else {
            Err(String::from_str("用法：run --image <图> 或 run --dir <目录>"))
        }
    } else if str_eq(cmd, "score") {
        if arg_is(args, 2, "--review") && args.len() > 3 {
            Ok(Command::Score(args[3].clone()))
        } else {
            Err(String::from_str("用法：score --review <review.csv>"))
        }
    } else if cmd.is_empty() {
        assert(cmd@ =~= Seq::<char>::empty());
        Err(
            String::from_str(
                "用法：recognize-rs <check | run --image 图 | run --dir 目录 | score --review csv>",
            ),
        )
    } else {
        Err(concat2("未知子命令：", cmd))
    }
}

} // verus!
