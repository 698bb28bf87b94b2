//! The strategy runner: its arguments, and the package that it writes around a
//! strategy file.

use crate::text;
use vstd::prelude::*;

verus! {

/// What the runner is asked to do.
#[derive(Debug, PartialEq, Eq)]
pub struct Arguments {
    pub strategy: String,
    pub config: String,
}

#[derive(Clone, Copy, Debug, PartialEq, Eq, Structural)]
pub enum ArgumentError {
    Usage,
}

impl ArgumentError {
    pub fn to_text(&self) -> (r: String)
        ensures
            r@ == "usage: bullet run <strategy.rs> --config <backtest.toml>"@,
    {
        "usage: bullet run <strategy.rs> --config <backtest.toml>".to_owned()
    }
}

impl Arguments {
    /// Reads `run <strategy> --config <config>`.
    pub fn parse(values: &[String]) -> (r: Result<Self, ArgumentError>)
        ensures
            if values@.len() == 4 && values@[0]@ == "run"@ && values@[2]@ == "--config"@ {
                r == Ok::<Self, ArgumentError>(
                    Arguments { strategy: values@[1], config: values@[3] },
                )
            } else {
                r == Err::<Self, ArgumentError>(ArgumentError::Usage)
            },
    {
        if values.len() != 4 || !text::same(values[0].as_str(), "run") || !text::same(
            values[2].as_str(),
            "--config",
        ) {
            return Err(ArgumentError::Usage);
        }
        Ok(Arguments { strategy: values[1].clone(), config: values[3].clone() })
    }
}

/// A text inside quotation marks: backslashes and quotation marks get a
/// backslash before them.
pub open spec fn escaped(value: Seq<char>) -> Seq<char>
    decreases value.len(),
{
    if value.len() == 0 {
        value
    } else {
        let last = value.last();
        let rest = escaped(value.drop_last());
        if last == '\\' || last == '"' {
            rest.push('\\').push(last)
        } else {
            rest.push(last)
        }
    }
}

pub fn escape(path: &str) -> (r: String)
    ensures
        r@ == escaped(path@),
{
    let all: Vec<char> = text::characters(path);
    let mut out: String = String::new();
    let mut i: usize = 0;
    assert(all@.take(0) =~= Seq::<char>::empty());
    assert(out@ =~= escaped(all@.take(0)));
    while i < all.len()
        invariant
            i <= all@.len(),
            out@ == escaped(all@.take(i as int)),
        decreases all@.len() - i,
    {
        proof {
            assert(all@.take(i + 1).drop_last() =~= all@.take(i as int));
        }
        let c: char = all[i];
        if c == '\\' || c == '"' {
            out.push('\\');
        }
        out.push(c);
        i = i + 1;
    }
    assert(all@.take(all@.len() as int) =~= all@);
    out
}

/// The manifest of the package around a strategy.
pub fn manifest(package: &str, library: &str) -> (r: String)
    ensures
        r@ == "[package]\nname = \""@ + package@
            + "\"\nversion = \"0.0.0\"\nedition = \"2024\"\n\n[dependencies]\nbullet = { path = \""@
            + escaped(library@) + "\" }\n"@,
{
    let mut out: String = "[package]\nname = \"".to_owned();
    out.append(package);
    out.append(
        "\"\nversion = \"0.0.0\"\nedition = \"2024\"\n\n[dependencies]\nbullet = { path = \"",
    );
    out.append(escape(library).as_str());
    out.append("\" }\n");
    out
}

/// The program around a strategy file: it runs the strategy on the configuration
/// that its argument names.
pub fn wrapper(strategy: &str) -> (r: String)
    ensures
        r@ == "#[path = \""@ + escaped(strategy@)
            + "\"]\nmod user_strategy;\n\nfn main() {\n    let config = std::env::args().nth(1).expect(\"usage: bullet-strategy <config.toml>\");\n    let mut strategy = user_strategy::strategy();\n    if let Err(error) = bullet::run(config, &mut strategy) {\n        eprintln!(\"bullet: {error}\");\n        std::process::exit(1);\n    }\n}\n"@,
{
    let mut out: String = "#[path = \"".to_owned();
    out.append(escape(strategy).as_str());
    out.append(
        "\"]\nmod user_strategy;\n\nfn main() {\n    let config = std::env::args().nth(1).expect(\"usage: bullet-strategy <config.toml>\");\n    let mut strategy = user_strategy::strategy();\n    if let Err(error) = bullet::run(config, &mut strategy) {\n        eprintln!(\"bullet: {error}\");\n        std::process::exit(1);\n    }\n}\n",
    );
    out
}

/// The name of the package of a strategy, by the directory that caches it.
pub fn strategy_package(directory: &str) -> (r: String)
    ensures
        r@ == "bullet-strategy-"@ + directory@,
{
    let mut out: String = "bullet-strategy-".to_owned();
    out.append(directory);
    out
}

} // verus!
