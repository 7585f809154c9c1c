//! Which engine runs the model.

use crate::chars::{
    from_chars, is_whitespace, lemma_trimmed_core, same_text, to_chars, trim, trimmed,
};
use crate::decimal::{number_of, parse_number};
use vstd::prelude::*;

verus! {

/// The engine that a caller asks for.
///
/// `Auto` takes the most capable engine that is built in and works: the first CUDA
/// device, then the CPU. The other requests fail where their engine is not there.
#[derive(Debug, Clone, Copy, PartialEq, Eq, Structural)]
pub enum DeviceRequest {
    /// The engine on the CPU.
    Cpu,
    /// The engine on a CUDA device.
    Cuda(usize),
    /// The best engine that works.
    Auto,
}

impl Default for DeviceRequest {
    fn default() -> (r: Self)
        ensures
            r == DeviceRequest::Auto,
    {
        DeviceRequest::Auto
    }
}

/// The engines that are built in.
#[derive(Debug, Clone, Copy, PartialEq, Eq, Structural)]
pub struct Engines {
    pub cuda: bool,
    pub cpu: bool,
}

/// The engine that was chosen.
#[derive(Debug, Clone, Copy, PartialEq, Eq, Structural)]
pub enum ResolvedBackend {
    Cpu,
    Cuda(usize),
}

/// Why no engine runs the model.
#[derive(Debug, Clone, Copy, PartialEq, Eq, Structural)]
pub enum BackendError {
    /// Nothing that is built in works.
    NoneAvailable,
    /// The CUDA engine is not built in.
    CudaNotBuilt,
    /// The CPU engine is not built in.
    CpuNotBuilt,
    /// The CUDA device could not be used.
    CudaFailed(usize),
}

/// What happens next while an engine is chosen.
#[derive(Debug, Clone, Copy, PartialEq, Eq, Structural)]
pub enum Step {
    /// Try to load the model on a CUDA device.
    TryCuda(usize),
    /// Load the model on the CPU.
    LoadCpu,
    /// Give up.
    Fail(BackendError),
}

/// The CPU engine, where it is built in.
pub open spec fn cpu_step(engines: Engines, missing: BackendError) -> Step {
    if engines.cpu {
        Step::LoadCpu
    } else {
        Step::Fail(missing)
    }
}

/// The first step for a request.
pub open spec fn first_step_of(request: DeviceRequest, engines: Engines) -> Step {
    match request {
        DeviceRequest::Cpu => cpu_step(engines, BackendError::CpuNotBuilt),
        DeviceRequest::Cuda(n) => if engines.cuda {
            Step::TryCuda(n)
        } else {
            Step::Fail(BackendError::CudaNotBuilt)
        },
        DeviceRequest::Auto => if engines.cuda {
            Step::TryCuda(0)
        } else {
            cpu_step(engines, BackendError::NoneAvailable)
        },
    }
}

/// The step after a CUDA device could not be used.
pub open spec fn step_after_failure(request: DeviceRequest, engines: Engines) -> Step {
    match request {
        DeviceRequest::Auto => cpu_step(engines, BackendError::NoneAvailable),
        DeviceRequest::Cuda(n) => Step::Fail(BackendError::CudaFailed(n)),
        DeviceRequest::Cpu => cpu_step(engines, BackendError::CpuNotBuilt),
    }
}

/// The first step for a request.
pub fn first_step(request: DeviceRequest, engines: Engines) -> (s: Step)
    ensures
        s == first_step_of(request, engines),
{
    match request {
        DeviceRequest::Cpu => if engines.cpu {
            Step::LoadCpu
        } else {
            Step::Fail(BackendError::CpuNotBuilt)
        },
        DeviceRequest::Cuda(n) => if engines.cuda {
            Step::TryCuda(n)
        } else {
            Step::Fail(BackendError::CudaNotBuilt)
        },
        DeviceRequest::Auto => if engines.cuda {
            Step::TryCuda(0)
        } else if engines.cpu {
            Step::LoadCpu
        } else {
            Step::Fail(BackendError::NoneAvailable)
        },
    }
}

/// The step after a CUDA device could not be used.
pub fn after_cuda_failure(request: DeviceRequest, engines: Engines) -> (s: Step)
    ensures
        s == step_after_failure(request, engines),
{
    match request {
        DeviceRequest::Auto => if engines.cpu {
            Step::LoadCpu
        } else {
            Step::Fail(BackendError::NoneAvailable)
        },
        DeviceRequest::Cuda(n) => Step::Fail(BackendError::CudaFailed(n)),
        DeviceRequest::Cpu => if engines.cpu {
            Step::LoadCpu
        } else {
            Step::Fail(BackendError::CpuNotBuilt)
        },
    }
}

/// The engine that a request ends with, given whether the CUDA device that it tries
/// can be used.
pub open spec fn resolution(request: DeviceRequest, engines: Engines, cuda_works: bool) -> Result<
    ResolvedBackend,
    BackendError,
> {
    match first_step_of(request, engines) {
        Step::TryCuda(n) => if cuda_works {
            Ok(ResolvedBackend::Cuda(n))
        } else {
            match step_after_failure(request, engines) {
                Step::LoadCpu => Ok(ResolvedBackend::Cpu),
                Step::Fail(e) => Err(e),
                Step::TryCuda(m) => Err(BackendError::CudaFailed(m)),
            }
        },
        Step::LoadCpu => Ok(ResolvedBackend::Cpu),
        Step::Fail(e) => Err(e),
    }
}

/// Chooses the engine for a request, given whether the CUDA device that it tries can be
/// used.
pub fn resolve_backend(request: DeviceRequest, engines: Engines, cuda_works: bool) -> (r: Result<
    ResolvedBackend,
    BackendError,
>)
    ensures
        r == resolution(request, engines, cuda_works),
        request == DeviceRequest::Cpu ==> r == (if engines.cpu {
            Ok(ResolvedBackend::Cpu)
        } else {
            Err(BackendError::CpuNotBuilt)
        }),
        request matches DeviceRequest::Cuda(n) ==> r == (if !engines.cuda {
            Err(BackendError::CudaNotBuilt)
        } else if cuda_works {
            Ok(ResolvedBackend::Cuda(n))
        } else {
            Err(BackendError::CudaFailed(n))
        }),
        request == DeviceRequest::Auto ==> r == (if engines.cuda && cuda_works {
            Ok(ResolvedBackend::Cuda(0))
        } else if engines.cpu {
            Ok(ResolvedBackend::Cpu)
        } else {
            Err(BackendError::NoneAvailable)
        }),
{
    match first_step(request, engines) {
        Step::TryCuda(n) => if cuda_works {
            Ok(ResolvedBackend::Cuda(n))
        } else {
            match after_cuda_failure(request, engines) {
                Step::LoadCpu => Ok(ResolvedBackend::Cpu),
                Step::Fail(e) => Err(e),
                Step::TryCuda(m) => Err(BackendError::CudaFailed(m)),
            }
        },
        Step::LoadCpu => Ok(ResolvedBackend::Cpu),
        Step::Fail(e) => Err(e),
    }
}

impl DeviceRequest {
    /// Settles `Auto` on an engine, given whether the CUDA device that is tried can be
    /// used. The CPU is left as it is asked for, built in or not; whether it can load a
    /// model shows later.
    pub fn resolve(self, engines: Engines, cuda_works: bool) -> (r: Result<
        ResolvedBackend,
        BackendError,
    >)
        ensures
            r == (if self == DeviceRequest::Cpu {
                Ok(ResolvedBackend::Cpu)
            } else {
                resolution(self, engines, cuda_works)
            }),
    {
        match self {
            DeviceRequest::Cpu => Ok(ResolvedBackend::Cpu),
            _ => resolve_backend(self, engines, cuda_works),
        }
    }

    /// A short label.
    pub fn tag(&self) -> (r: &'static str)
        ensures
            r@ == match *self {
                DeviceRequest::Auto => "auto"@,
                DeviceRequest::Cpu => "cpu"@,
                DeviceRequest::Cuda(_) => "cuda"@,
            },
    {
        match self {
            DeviceRequest::Auto => "auto",
            DeviceRequest::Cpu => "cpu",
            DeviceRequest::Cuda(_) => "cuda",
        }
    }
}

/// An explicit request never ends with another engine or another device.
pub proof fn lemma_explicit_requests_are_kept(
    request: DeviceRequest,
    engines: Engines,
    cuda_works: bool,
)
    ensures
        resolution(request, engines, cuda_works) matches Ok(b) ==> match request {
            DeviceRequest::Cpu => b == ResolvedBackend::Cpu,
            DeviceRequest::Cuda(n) => b == ResolvedBackend::Cuda(n),
            DeviceRequest::Auto => b == ResolvedBackend::Cpu || b == ResolvedBackend::Cuda(0),
        },
{
}

/// `Auto` finds an engine wherever one is built in and works, and prefers CUDA.
pub proof fn lemma_auto_finds_an_engine(engines: Engines, cuda_works: bool)
    ensures
        resolution(DeviceRequest::Auto, engines, cuda_works) is Ok <==> engines.cpu || (
        engines.cuda && cuda_works),
        engines.cuda && cuda_works ==> resolution(DeviceRequest::Auto, engines, cuda_works) == Ok::<
            _,
            BackendError,
        >(ResolvedBackend::Cuda(0)),
{
}

/// What a request ends with, whatever is built in and works: the CPU engine where it is
/// asked for and built in; the CUDA device where it is asked for, built in and works; for
/// `Auto` the first CUDA device where it is built in and works, else the CPU engine where
/// that is built in. Every other end is the error that says what was missing.
pub proof fn lemma_every_request_ends(request: DeviceRequest, engines: Engines, cuda_works: bool)
    ensures
        match (request, resolution(request, engines, cuda_works)) {
            (DeviceRequest::Cpu, Ok(b)) => engines.cpu && b == ResolvedBackend::Cpu,
            (DeviceRequest::Cpu, Err(e)) => !engines.cpu && e == BackendError::CpuNotBuilt,
            (DeviceRequest::Cuda(n), Ok(b)) => engines.cuda && cuda_works && b
                == ResolvedBackend::Cuda(n),
            (DeviceRequest::Cuda(n), Err(e)) => if engines.cuda {
                !cuda_works && e == BackendError::CudaFailed(n)
            } else {
                e == BackendError::CudaNotBuilt
            },
            (DeviceRequest::Auto, Ok(b)) => if engines.cuda && cuda_works {
                b == ResolvedBackend::Cuda(0)
            } else {
                engines.cpu && b == ResolvedBackend::Cpu
            },
            (DeviceRequest::Auto, Err(e)) => !engines.cpu && !(engines.cuda && cuda_works) && e
                == BackendError::NoneAvailable,
        },
{
}

/// The lower-case form of an ASCII letter; other characters stay as they are.
pub open spec fn ascii_lower(c: char) -> char {
    if 'A' <= c <= 'Z' {
        (c as u32 + 32) as char
    } else {
        c
    }
}

fn to_ascii_lower(c: char) -> (r: char)
    ensures
        r == ascii_lower(c),
{
    if 'A' <= c && c <= 'Z' {
        (c as u8 + 32) as char
    } else {
        c
    }
}

/// Why a device name is not understood.
#[derive(Debug, Clone)]
pub enum DeviceError {
    /// What follows `cuda:` is not a device number.
    InvalidOrdinal(String),
    /// The name is none of those known.
    Unknown(String),
}

/// A device name as it is compared: without white space at its ends, in lower case.
pub open spec fn device_name(s: Seq<char>) -> Seq<char> {
    trimmed(s).map_values(|c: char| ascii_lower(c))
}

/// The names `auto`, `cpu`, `cuda` and `cuda:` with a device number.
pub open spec fn named_device(name: Seq<char>) -> Option<DeviceRequest> {
    if name == "auto"@ {
        Some(DeviceRequest::Auto)
    } else if name == "cpu"@ {
        Some(DeviceRequest::Cpu)
    } else if name == "cuda"@ {
        Some(DeviceRequest::Cuda(0))
    } else if "cuda:"@.is_prefix_of(name) {
        match number_of(name.skip(5)) {
            Some(n) => if n <= usize::MAX {
                Some(DeviceRequest::Cuda(n as usize))
            } else {
                None
            },
            None => None,
        }
    } else {
        None
    }
}

/// Reads a device name.
pub fn parse_device(s: &str) -> (r: Result<DeviceRequest, DeviceError>)
    ensures
        match r {
            Ok(d) => named_device(device_name(s@)) == Some(d),
            Err(DeviceError::InvalidOrdinal(rest)) => named_device(device_name(s@)) is None
                && "cuda:"@.is_prefix_of(device_name(s@)) && rest@ == device_name(s@).skip(5),
            Err(DeviceError::Unknown(name)) => named_device(device_name(s@)) is None
                && !"cuda:"@.is_prefix_of(device_name(s@)) && name@ == device_name(s@),
        },
{
    let clean: String = trim(s);
    let mut chars: Vec<char> = to_chars(clean.as_str());
    let n: usize = chars.len();
    for i in 0..n
        invariant
            n == chars@.len() == clean@.len(),
            forall|k: int| 0 <= k < i ==> #[trigger] chars@[k] == ascii_lower(clean@[k]),
            forall|k: int| i <= k < n ==> #[trigger] chars@[k] == clean@[k],
    {
        let c: char = to_ascii_lower(chars[i]);
        chars.set(i, c);
    }
    assert(chars@ =~= device_name(s@));
    let name: String = from_chars(&chars, 0, n);
    assert(name@ =~= device_name(s@));
    if same_text(name.as_str(), "auto") {
        return Ok(DeviceRequest::Auto);
    }
    if same_text(name.as_str(), "cpu") {
        return Ok(DeviceRequest::Cpu);
    }
    if same_text(name.as_str(), "cuda") {
        return Ok(DeviceRequest::Cuda(0));
    }
    proof {
        reveal_strlit("cuda:");
    }
    let prefixed: bool = n >= 5 && same_text(from_chars(&chars, 0, 5).as_str(), "cuda:");
    proof {
        if n >= 5 {
            assert(chars@.subrange(0, 5) =~= name@.take(5));
        }
        assert(prefixed <==> "cuda:"@.is_prefix_of(name@)) by {
            if n >= 5 {
                assert("cuda:"@.is_prefix_of(name@) <==> "cuda:"@ =~= name@.subrange(0, 5));
                assert(name@.subrange(0, 5) =~= chars@.subrange(0, 5));
            }
        }
    }
    if !prefixed {
        return Err(DeviceError::Unknown(name));
    }
    let rest: String = from_chars(&chars, 5, n);
    assert(rest@ =~= name@.skip(5));
    match parse_number(rest.as_str()) {
        Some(ordinal) => if ordinal <= usize::MAX as u64 {
            Ok(DeviceRequest::Cuda(ordinal as usize))
        } else {
            Err(DeviceError::InvalidOrdinal(rest))
        },
        None => Err(DeviceError::InvalidOrdinal(rest)),
    }
}

/// White space around a device name and the case of its ASCII letters do not matter.
pub proof fn lemma_device_name_is_free(s: Seq<char>, t: Seq<char>, left: Seq<char>, right: Seq<char>)
    requires
        forall|i: int| 0 <= i < left.len() ==> is_whitespace(#[trigger] left[i]),
        forall|i: int| 0 <= i < right.len() ==> is_whitespace(#[trigger] right[i]),
        s.len() == t.len() > 0,
        forall|i: int|
            0 <= i < s.len() ==> {
                ||| #[trigger] s[i] == t[i]
                ||| 'A' <= s[i] <= 'Z' && t[i] as int == s[i] as int + 32
                ||| 'a' <= s[i] <= 'z' && t[i] as int == s[i] as int - 32
            },
        !is_whitespace(s[0]) && !is_whitespace(s.last()),
    ensures
        device_name(left + s + right) == device_name(t),
        device_name(s) == device_name(t),
{
    assert(!is_whitespace(t[0])) by {
        assert(s[0] == t[0] || s[0] != t[0]);
    }
    assert(!is_whitespace(t.last())) by {
        assert(s[s.len() - 1] == t[s.len() - 1] || s[s.len() - 1] != t[s.len() - 1]);
    }
    lemma_trimmed_core(left, s, right);
    lemma_trimmed_core(Seq::empty(), s, Seq::empty());
    lemma_trimmed_core(Seq::empty(), t, Seq::empty());
    assert(Seq::<char>::empty() + s + Seq::<char>::empty() =~= s);
    assert(Seq::<char>::empty() + t + Seq::<char>::empty() =~= t);
    let f = |c: char| ascii_lower(c);
    assert forall|i: int| 0 <= i < s.len() implies #[trigger] ascii_lower(s[i]) == ascii_lower(
        t[i],
    ) by {
        assert(s[i] == t[i] || s[i] != t[i]);
    }
    assert(s.map_values(f) =~= t.map_values(f));
}

/// The names of devices: `auto`, `cpu`, `cuda` for the first CUDA device, and `cuda:`
/// with the number of any; the text of the number is any that reads as it.
pub proof fn lemma_device_names(number: Seq<char>, n: usize)
    requires
        number_of(number) == Some(n as int),
    ensures
        named_device("auto"@) == Some(DeviceRequest::Auto),
        named_device("cpu"@) == Some(DeviceRequest::Cpu),
        named_device("cuda"@) == Some(DeviceRequest::Cuda(0)),
        named_device("cuda:"@ + number) == Some(DeviceRequest::Cuda(n)),
        forall|name: Seq<char>| #[trigger]
            named_device(name) is Some ==> name == "auto"@ || name == "cpu"@ || name == "cuda"@
                || "cuda:"@.is_prefix_of(name),
{
    reveal_strlit("auto");
    reveal_strlit("cpu");
    reveal_strlit("cuda");
    reveal_strlit("cuda:");
    assert("auto"@[0] != "cpu"@[0]);
    assert("auto"@[0] != "cuda"@[0]);
    assert("cpu"@.len() == 3 && "cuda"@.len() == 4 && "cuda:"@.len() == 5);
    let name = "cuda:"@ + number;
    assert(number.len() > 0);
    assert(name.len() > 5);
    assert(name.skip(5) =~= number);
    assert("cuda:"@.is_prefix_of(name));
    assert("auto"@.len() == 4);
}

} // verus!
