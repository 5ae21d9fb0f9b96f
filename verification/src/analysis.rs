pub mod framing;
pub mod median;
pub mod octave;
pub mod postprocess;
pub mod quantize;
pub mod transpose;
