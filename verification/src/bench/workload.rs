//! The shapes of workloads.

use crate::text::join3;
use crate::tokenizer::template::same_text;
use vstd::prelude::*;
use vstd::string::*;

verus! {

/// The shape of a workload.
///
/// Long prompts stress prefill and chunking, long outputs stress the KV cache
/// and decode batching. Reporting one number across a mixed workload hides
/// both.
#[derive(Debug, Clone, Copy, PartialEq, Eq, Structural)]
pub enum WorkloadShape {
    /// Short prompt, short output. Chat-like.
    ShortShort,
    /// Short prompt, long output. Generation-heavy.
    ShortLong,
    /// Long prompt, short output. Summarization-like.
    LongShort,
    /// Long prompt, long output. The most demanding on cache.
    LongLong,
}

impl WorkloadShape {
    pub fn prompt_tokens(self) -> (r: usize)
        ensures
            r == if self is ShortShort || self is ShortLong {
                128usize
            } else {
                2048
            },
    {
        match self {
            WorkloadShape::ShortShort | WorkloadShape::ShortLong => 128,
            WorkloadShape::LongShort | WorkloadShape::LongLong => 2048,
        }
    }

    pub fn output_tokens(self) -> (r: usize)
        ensures
            r == if self is ShortShort || self is LongShort {
                128usize
            } else {
                1024
            },
    {
        match self {
            WorkloadShape::ShortShort | WorkloadShape::LongShort => 128,
            WorkloadShape::ShortLong | WorkloadShape::LongLong => 1024,
        }
    }

    pub open spec fn label(self) -> Seq<char> {
        match self {
            WorkloadShape::ShortShort => "short_prompt_short_output"@,
            WorkloadShape::ShortLong => "short_prompt_long_output"@,
            WorkloadShape::LongShort => "long_prompt_short_output"@,
            WorkloadShape::LongLong => "long_prompt_long_output"@,
        }
    }

    pub fn as_str(self) -> (r: &'static str)
        ensures
            r@ == self.label(),
    {
        match self {
            WorkloadShape::ShortShort => "short_prompt_short_output",
            WorkloadShape::ShortLong => "short_prompt_long_output",
            WorkloadShape::LongShort => "long_prompt_short_output",
            WorkloadShape::LongLong => "long_prompt_long_output",
        }
    }

    pub open spec fn every() -> Seq<WorkloadShape> {
        seq![
            WorkloadShape::ShortShort,
            WorkloadShape::ShortLong,
            WorkloadShape::LongShort,
            WorkloadShape::LongLong,
        ]
    }

    pub fn all() -> (r: [WorkloadShape; 4])
        ensures
            r@ == Self::every(),
    {
        let all = [
            WorkloadShape::ShortShort,
            WorkloadShape::ShortLong,
            WorkloadShape::LongShort,
            WorkloadShape::LongLong,
        ];
        proof {
            assert(all@ =~= Self::every());
        }
        all
    }

    /// The shape of that name.
    pub open spec fn named(name: Seq<char>) -> Option<WorkloadShape> {
        if name == WorkloadShape::ShortShort.label() {
            Some(WorkloadShape::ShortShort)
        } else if name == WorkloadShape::ShortLong.label() {
            Some(WorkloadShape::ShortLong)
        } else if name == WorkloadShape::LongShort.label() {
            Some(WorkloadShape::LongShort)
        } else if name == WorkloadShape::LongLong.label() {
            Some(WorkloadShape::LongLong)
        } else {
            None
        }
    }

    fn find(name: &str) -> (r: Option<WorkloadShape>)
        ensures
            r == Self::named(name@),
    {
        if same_text(name, WorkloadShape::ShortShort.as_str()) {
            Some(WorkloadShape::ShortShort)
        } else if same_text(name, WorkloadShape::ShortLong.as_str()) {
            Some(WorkloadShape::ShortLong)
        } else if same_text(name, WorkloadShape::LongShort.as_str()) {
            Some(WorkloadShape::LongShort)
        } else if same_text(name, WorkloadShape::LongLong.as_str()) {
            Some(WorkloadShape::LongLong)
        } else {
            None
        }
    }
}

/// The shapes have different names, and each is found under its own.
pub proof fn law_shapes_are_found_by_name(s: WorkloadShape)
    ensures
        WorkloadShape::named(s.label()) == Some(s),
{
    reveal_strlit("short_prompt_short_output");
    reveal_strlit("short_prompt_long_output");
    reveal_strlit("long_prompt_short_output");
    reveal_strlit("long_prompt_long_output");
    let ss = "short_prompt_short_output"@;
    let sl = "short_prompt_long_output"@;
    let ls = "long_prompt_short_output"@;
    let ll = "long_prompt_long_output"@;
    assert(ss.len() == 25 && sl.len() == 24 && ls.len() == 24 && ll.len() == 23);
    assert(sl[0] != ls[0]);
}

/// The shapes to run: all of them, or those that are named.
pub fn select_shapes(names: Option<&[String]>) -> (r: Result<Vec<WorkloadShape>, String>)
    ensures
        match (names, r) {
            (None, Ok(shapes)) => shapes@ == WorkloadShape::every(),
            (None, Err(_)) => false,
            (Some(n), Ok(shapes)) => {
                &&& shapes@.len() == n@.len()
                &&& forall|i: int|
                    0 <= i < n@.len() ==> WorkloadShape::named((#[trigger] n@[i])@) == Some(
                        shapes@[i],
                    )
            },
            (Some(n), Err(e)) => exists|i: int|
                {
                    &&& 0 <= i < n@.len()
                    &&& WorkloadShape::named((#[trigger] n@[i])@) is None
                    &&& e@ == "unknown workload `"@ + n@[i]@ + "`"@
                    &&& forall|k: int|
                        0 <= k < i ==> WorkloadShape::named((#[trigger] n@[k])@) is Some
                },
        },
{
    let list = match names {
        Some(list) => list,
        None => {
            let all = WorkloadShape::all();
            let mut out: Vec<WorkloadShape> = Vec::new();
            out.push(all[0]);
            out.push(all[1]);
            out.push(all[2]);
            out.push(all[3]);
            proof {
                assert(out@ =~= WorkloadShape::every());
            }
            return Ok(out);
        },
    };
    let mut out: Vec<WorkloadShape> = Vec::new();
    let mut i: usize = 0;
    while i < list.len()
        invariant
            names == Some(list),
            i <= list@.len(),
            out@.len() == i,
            forall|k: int|
                0 <= k < i ==> WorkloadShape::named((#[trigger] list@[k])@) == Some(out@[k]),
        decreases list@.len() - i,
    {
        match WorkloadShape::find(list[i].as_str()) {
            Some(shape) => {
                out.push(shape);
            },
            None => {
                return Err(join3("unknown workload `", list[i].as_str(), "`"));
            },
        }
        i += 1;
    }
    Ok(out)
}

} // verus!
