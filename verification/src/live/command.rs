//! The command line of the live runner, and its latency gate.

use crate::arrange;
use crate::arrange::Ranked;
use crate::text;
use vstd::prelude::*;

verus! {

/// What the runner is asked to do.
#[derive(Debug, PartialEq, Eq)]
pub enum Command {
    Serve { config: String },
    Benchmark { events: usize },
    SeedBenchmark { config: String },
    Replay { config: String, output: String },
    VerifyParity { config: String, decisions: String, labels: String },
}

/// A command, with its texts as characters.
pub enum Request {
    Serve(Seq<char>),
    Benchmark(int),
    SeedBenchmark(Seq<char>),
    Replay(Seq<char>, Seq<char>),
    VerifyParity(Seq<char>, Seq<char>, Seq<char>),
}

impl View for Command {
    type V = Request;

    open spec fn view(&self) -> Request {
        match self {
            Command::Serve { config } => Request::Serve(config@),
            Command::Benchmark { events } => Request::Benchmark(*events as int),
            Command::SeedBenchmark { config } => Request::SeedBenchmark(config@),
            Command::Replay { config, output } => Request::Replay(config@, output@),
            Command::VerifyParity { config, decisions, labels } => Request::VerifyParity(
                config@,
                decisions@,
                labels@,
            ),
        }
    }
}

/// What the arguments ask for, or the message that refuses them.
pub open spec fn requested(arguments: Seq<String>) -> Result<Request, Seq<char>> {
    let n = arguments.len();
    if n > 0 && arguments[0]@ == "serve"@ {
        if n == 2 {
            Ok(Request::Serve(arguments[1]@))
        } else {
            Err("usage: bullet-live serve <config.toml>"@)
        }
    } else if n > 0 && arguments[0]@ == "benchmark"@ {
        if n == 1 {
            Ok(Request::Benchmark(20_000))
        } else {
            match text::count(arguments[1]@) {
                Err(reason) => Err(reason@),
                Ok(events) => if n > 2 || events == 0 {
                    Err("usage: bullet-live benchmark [event_count]"@)
                } else {
                    Ok(Request::Benchmark(events as int))
                },
            }
        }
    } else if n > 0 && arguments[0]@ == "seed-benchmark"@ {
        if n == 2 {
            Ok(Request::SeedBenchmark(arguments[1]@))
        } else {
            Err("usage: bullet-live seed-benchmark <config.toml>"@)
        }
    } else if n > 0 && arguments[0]@ == "replay"@ {
        if n == 3 {
            Ok(Request::Replay(arguments[1]@, arguments[2]@))
        } else {
            Err("usage: bullet-live replay <config.toml> <output.jsonl>"@)
        }
    } else if n > 0 && arguments[0]@ == "verify-parity"@ {
        if n == 4 {
            Ok(Request::VerifyParity(arguments[1]@, arguments[2]@, arguments[3]@))
        } else {
            Err(
                "usage: bullet-live verify-parity <config.toml> <lab_candidate_decisions.csv> <lab_raw_candidate_labels.csv>"@,
            )
        }
    } else {
        Err(
            "usage: bullet-live <serve <config.toml>|benchmark [event_count]|seed-benchmark <config.toml>|replay <config.toml> <output.jsonl>|verify-parity <config.toml> <lab_candidate_decisions.csv> <lab_raw_candidate_labels.csv>>"@,
        )
    }
}

impl Command {
    /// Reads the arguments behind the program's name.
    pub fn parse(arguments: &[String]) -> (r: Result<Self, String>)
        ensures
            match requested(arguments@) {
                Ok(request) => r matches Ok(command) && command@ == request,
                Err(error) => r matches Err(message) && message@ == error,
            },
    {
        let n: usize = arguments.len();
        if n > 0 && text::same(arguments[0].as_str(), "serve") {
            if n == 2 {
                return Ok(Command::Serve { config: arguments[1].clone() });
            }
            return Err("usage: bullet-live serve <config.toml>".to_owned());
        }
        if n > 0 && text::same(arguments[0].as_str(), "benchmark") {
            if n == 1 {
                return Ok(Command::Benchmark { events: 20_000 });
            }
            return match text::parse_count(arguments[1].as_str()) {
                Err(reason) => Err(reason.to_owned()),
                Ok(events) => if n > 2 || events == 0 {
                    Err("usage: bullet-live benchmark [event_count]".to_owned())
                } else {
                    Ok(Command::Benchmark { events })
                },
            };
        }
        if n > 0 && text::same(arguments[0].as_str(), "seed-benchmark") {
            if n == 2 {
                return Ok(Command::SeedBenchmark { config: arguments[1].clone() });
            }
            return Err("usage: bullet-live seed-benchmark <config.toml>".to_owned());
        }
        if n > 0 && text::same(arguments[0].as_str(), "replay") {
            if n == 3 {
                return Ok(
                    Command::Replay { config: arguments[1].clone(), output: arguments[2].clone() },
                );
            }
            return Err("usage: bullet-live replay <config.toml> <output.jsonl>".to_owned());
        }
        if n > 0 && text::same(arguments[0].as_str(), "verify-parity") {
            if n == 4 {
                return Ok(
                    Command::VerifyParity {
                        config: arguments[1].clone(),
                        decisions: arguments[2].clone(),
                        labels: arguments[3].clone(),
                    },
                );
            }
            return Err(
                "usage: bullet-live verify-parity <config.toml> <lab_candidate_decisions.csv> <lab_raw_candidate_labels.csv>".to_owned(),
            );
        }
        Err(
            "usage: bullet-live <serve <config.toml>|benchmark [event_count]|seed-benchmark <config.toml>|replay <config.toml> <output.jsonl>|verify-parity <config.toml> <lab_candidate_decisions.csv> <lab_raw_candidate_labels.csv>>".to_owned(),
        )
    }
}

/// A measured latency in nanoseconds.
#[derive(Clone, Copy, Debug, PartialEq, Eq, Structural)]
pub struct Sample {
    pub nanoseconds: u64,
}

impl Ranked for Sample {
    open spec fn ranks_before(self, other: Self) -> bool {
        self.nanoseconds < other.nanoseconds
    }

    proof fn lemma_ranks_asymmetric(a: Self, b: Self) {
    }

    proof fn lemma_ranks_transitive(a: Self, b: Self, c: Self) {
    }

    fn is_before(&self, other: &Self) -> (r: bool) {
        self.nanoseconds < other.nanoseconds
    }
}

/// The latencies of a benchmark.
#[derive(Clone, Copy, Debug, PartialEq, Eq, Structural)]
pub struct Latency {
    pub events: usize,
    pub p50_ns: u64,
    pub p99_ns: u64,
    pub max_ns: u64,
}

/// The latencies of samples.
pub open spec fn latencies(samples: Seq<Sample>) -> Latency {
    let sorted = arrange::arranged(samples);
    let n = samples.len() as int;
    Latency {
        events: n as usize,
        p50_ns: sorted[n / 2].nanoseconds,
        p99_ns: sorted[n * 99 / 100].nanoseconds,
        max_ns: sorted[n - 1].nanoseconds,
    }
}

/// The latencies of samples.
pub fn latency(samples: Vec<Sample>) -> (r: Latency)
    requires
        samples@.len() > 0,
    ensures
        r == latencies(samples@),
{
    proof {
        arrange::law_arranged(samples@);
    }
    let sorted: Vec<Sample> = arrange::arrange(samples);
    let n: usize = sorted.len();
    Latency {
        events: n,
        p50_ns: sorted[n / 2].nanoseconds,
        p99_ns: sorted[(n as u128 * 99 / 100) as usize].nanoseconds,
        max_ns: sorted[n - 1].nanoseconds,
    }
}

/// The budget of one inference.
pub const BUDGET_NS: u64 = 100_000_000;

/// Fails where the slowest hundredth of the inferences reaches the budget.
pub fn check_latency(latency: &Latency) -> (r: Result<(), String>)
    ensures
        if latency.p99_ns >= BUDGET_NS {
            r matches Err(message) && message@ == "p99 inference latency exceeds 100ms: "@
                + text::numeral(latency.p99_ns as nat) + "ns"@
        } else {
            r is Ok
        },
{
    if latency.p99_ns >= BUDGET_NS {
        let mut message: String = "p99 inference latency exceeds 100ms: ".to_owned();
        text::push_numeral(&mut message, latency.p99_ns as u128);
        message.append("ns");
        return Err(message);
    }
    Ok(())
}

} // verus!
