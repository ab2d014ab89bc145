//! The fizzbuzz binary's invocation: the headless run of one graph file,
//! or the editor over a file — or over nothing, an empty canvas — at the
//! address it serves.

use vstd::prelude::*;
use crate::text::same_text;

verus! {

/// The address the editor serves on when none is named: the loopback.
pub const DEFAULT_ADDRESS: &'static str = "127.0.0.1:8420";

/// The usage text an invocation that asks for nothing coherent gets.
pub const USAGE: &'static str = "usage: nodetool-fizzbuzz <graph-file>\n       nodetool-fizzbuzz --ui [--address <host:port>] [graph-file]";

/// What the invocation asked for.
#[derive(PartialEq, Debug)]
pub enum Mode {
    Headless(String),
    Ui { file: Option<String>, address: String },
}

/// The editor invocation's tail, read from index `i` on with what was
/// already read: the file and the address, or none when the tail repeats
/// one, leaves the address flag without its value, or names a second file.
pub open spec fn ui_scan(args: Seq<Seq<char>>, i: int, file: Option<Seq<char>>, address: Option<Seq<char>>) -> Option<(Option<Seq<char>>, Option<Seq<char>>)>
    decreases args.len() - i,
{
    if i < 0 || i >= args.len() {
        Some((file, address))
    } else if args[i] == "--address"@ {
        if address is Some || i + 1 >= args.len() {
            None
        } else {
            ui_scan(args, i + 2, file, Some(args[i + 1]))
        }
    } else if file is None {
        ui_scan(args, i + 1, Some(args[i]), address)
    } else {
        None
    }
}

/// What an invocation asks for: `Some((false, path, _))` for the headless
/// run of `path`, `Some((true, file, address))` for the editor, none for a
/// usage error.
pub open spec fn invocation(args: Seq<Seq<char>>) -> Option<(bool, Option<Seq<char>>, Seq<char>)> {
    if args.len() == 0 {
        None
    } else if args[0] == "--ui"@ {
        match ui_scan(args, 1, None, None) {
            Some((file, address)) => Some((true, file, match address {
                Some(a) => a,
                None => DEFAULT_ADDRESS@,
            })),
            None => None,
        }
    } else if args.len() == 1 {
        Some((false, Some(args[0]), Seq::empty()))
    } else {
        None
    }
}

/// Whether a parsed mode is what the invocation asked for.
pub open spec fn mode_reads(mode: Mode, asked: (bool, Option<Seq<char>>, Seq<char>)) -> bool {
    match mode {
        Mode::Headless(path) => !asked.0 && asked.1 == Some(path@),
        Mode::Ui { file, address } => asked.0 && address@ == asked.2 && match file {
            Some(f) => asked.1 == Some(f@),
            None => asked.1 is None,
        },
    }
}

/// The editor invocation's tail from `start` on: an optional address to
/// serve and an optional file, in either order but once each.
pub fn ui_mode(args: &Vec<String>, start: usize) -> (parsed: Result<Mode, &'static str>)
    requires
        start >= 1,
    ensures
        match parsed {
            Ok(mode) => ui_scan(args@.map_values(|a: String| a@), start as int, None, None) matches Some((file, address))
                && mode_reads(mode, (true, file, match address {
                    Some(a) => a,
                    None => DEFAULT_ADDRESS@,
                })),
            Err(usage) => ui_scan(args@.map_values(|a: String| a@), start as int, None, None) is None && usage@ == USAGE@,
        },
{
    let ghost texts = args@.map_values(|a: String| a@);
    let mut address: Option<String> = None;
    let mut file: Option<String> = None;
    let mut i = start;
    while i < args.len()
        invariant
            texts == args@.map_values(|a: String| a@),
            start <= i,
            ui_scan(texts, start as int, None, None) == ui_scan(
                texts,
                i as int,
                match file { Some(f) => Some(f@), None => None },
                match address { Some(a) => Some(a@), None => None },
            ),
        decreases args.len() - i,
    {
        if same_text(args[i].as_str(), "--address") {
            if address.is_some() || i + 1 >= args.len() {
                return Err(USAGE);
            }
            address = Some(args[i + 1].clone());
            i = i + 2;
        } else if file.is_none() {
            file = Some(args[i].clone());
            i = i + 1;
        } else {
            return Err(USAGE);
        }
    }
    let address = match address {
        Some(a) => a,
        None => DEFAULT_ADDRESS.to_owned(),
    };
    Ok(Mode::Ui { file, address })
}

/// Read the invocation's arguments, the program name left out.
pub fn mode(args: &Vec<String>) -> (parsed: Result<Mode, &'static str>)
    ensures
        match parsed {
            Ok(mode) => invocation(args@.map_values(|a: String| a@)) matches Some(asked) && mode_reads(mode, asked),
            Err(usage) => invocation(args@.map_values(|a: String| a@)) is None && usage@ == USAGE@,
        },
{
    if args.len() == 0 {
        return Err(USAGE);
    }
    if same_text(args[0].as_str(), "--ui") {
        return ui_mode(args, 1);
    }
    if args.len() == 1 {
        Ok(Mode::Headless(args[0].clone()))
    } else {
        Err(USAGE)
    }
}

} // verus!
