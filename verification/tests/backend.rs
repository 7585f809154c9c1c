use qwen_forced_aligner::backend::{
    after_cuda_failure, first_step, parse_device, resolve_backend, BackendError, DeviceError,
    DeviceRequest, Engines, ResolvedBackend, Step,
};
use qwen_forced_aligner::decimal::{parse_number, write_number};

const BOTH: Engines = Engines { cuda: true, cpu: true };
const CPU: Engines = Engines { cuda: false, cpu: true };
const CUDA: Engines = Engines { cuda: true, cpu: false };
const NONE: Engines = Engines { cuda: false, cpu: false };

#[test]
fn requests_by_name() {
    assert_eq!(parse_device("auto").unwrap(), DeviceRequest::Auto);
    assert_eq!(parse_device(" CPU\n").unwrap(), DeviceRequest::Cpu);
    assert_eq!(parse_device("Cuda").unwrap(), DeviceRequest::Cuda(0));
    assert_eq!(parse_device("cuda:3").unwrap(), DeviceRequest::Cuda(3));
    assert_eq!(parse_device("cuda:+7").unwrap(), DeviceRequest::Cuda(7));
}

#[test]
fn names_that_are_no_requests() {
    match parse_device(" TPU ") {
        Err(DeviceError::Unknown(name)) => assert_eq!(name, "tpu"),
        other => panic!("{:?}", other),
    }
    for name in ["cuda:", "cuda:x", "cuda:-1", "cuda: 1", "cuda:99999999999999999999"] {
        match parse_device(name) {
            Err(DeviceError::InvalidOrdinal(rest)) => assert_eq!(rest, &name[5..]),
            other => panic!("{:?}", other),
        }
    }
}

#[test]
fn tags_of_requests() {
    assert_eq!(DeviceRequest::Auto.tag(), "auto");
    assert_eq!(DeviceRequest::Cpu.tag(), "cpu");
    assert_eq!(DeviceRequest::Cuda(2).tag(), "cuda");
    assert_eq!(DeviceRequest::default(), DeviceRequest::Auto);
}

#[test]
fn auto_takes_the_best_engine_that_works() {
    assert_eq!(DeviceRequest::Auto.resolve(BOTH, true), Ok(ResolvedBackend::Cuda(0)));
    assert_eq!(DeviceRequest::Auto.resolve(BOTH, false), Ok(ResolvedBackend::Cpu));
    assert_eq!(DeviceRequest::Auto.resolve(CPU, true), Ok(ResolvedBackend::Cpu));
    assert_eq!(DeviceRequest::Auto.resolve(CUDA, false), Err(BackendError::NoneAvailable));
    assert_eq!(DeviceRequest::Auto.resolve(NONE, true), Err(BackendError::NoneAvailable));
}

#[test]
fn explicit_requests_do_not_fall_back() {
    assert_eq!(DeviceRequest::Cuda(1).resolve(BOTH, true), Ok(ResolvedBackend::Cuda(1)));
    assert_eq!(DeviceRequest::Cuda(1).resolve(BOTH, false), Err(BackendError::CudaFailed(1)));
    assert_eq!(DeviceRequest::Cuda(1).resolve(CPU, true), Err(BackendError::CudaNotBuilt));
    assert_eq!(DeviceRequest::Cpu.resolve(CPU, false), Ok(ResolvedBackend::Cpu));
    assert_eq!(DeviceRequest::Cpu.resolve(CUDA, true), Ok(ResolvedBackend::Cpu));
}

#[test]
fn engines_that_are_not_built_in_load_no_model() {
    assert_eq!(resolve_backend(DeviceRequest::Cpu, CUDA, true), Err(BackendError::CpuNotBuilt));
    assert_eq!(resolve_backend(DeviceRequest::Cpu, CPU, true), Ok(ResolvedBackend::Cpu));
    assert_eq!(
        resolve_backend(DeviceRequest::Cuda(2), CPU, true),
        Err(BackendError::CudaNotBuilt)
    );
    assert_eq!(resolve_backend(DeviceRequest::Auto, BOTH, false), Ok(ResolvedBackend::Cpu));
    assert_eq!(resolve_backend(DeviceRequest::Auto, NONE, true), Err(BackendError::NoneAvailable));
}

#[test]
fn steps_of_a_resolution() {
    assert_eq!(first_step(DeviceRequest::Auto, BOTH), Step::TryCuda(0));
    assert_eq!(after_cuda_failure(DeviceRequest::Auto, BOTH), Step::LoadCpu);
    assert_eq!(first_step(DeviceRequest::Auto, CPU), Step::LoadCpu);
    assert_eq!(first_step(DeviceRequest::Cuda(4), BOTH), Step::TryCuda(4));
    assert_eq!(
        after_cuda_failure(DeviceRequest::Cuda(4), BOTH),
        Step::Fail(BackendError::CudaFailed(4))
    );
}

#[test]
fn numbers_in_digits() {
    for n in [0usize, 9, 10, 99, 100, 123456789] {
        assert_eq!(write_number(n), n.to_string());
        assert_eq!(parse_number(&write_number(n)), Some(n as u64));
    }
    assert_eq!(parse_number("18446744073709551615"), Some(u64::MAX));
    assert_eq!(parse_number("18446744073709551616"), None);
    assert_eq!(parse_number("0012"), Some(12));
    for text in ["", "+", "-1", " 1", "1 ", "a", "１"] {
        assert_eq!(parse_number(text), None);
    }
}
