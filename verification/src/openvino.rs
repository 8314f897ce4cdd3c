//! Configuration of the OpenVINO speech-to-text engine.

use vstd::prelude::*;

verus! {

/// Configuration of the OpenVINO speech-to-text engine, which runs on an NPU, a CPU or a GPU.
#[derive(Debug, Clone)]
pub struct OpenVinoConfig {
    /// Name of a model, or path of a directory with its IR files.
    pub model: String,
    /// Device that runs the model: "NPU", "CPU", "GPU" or "AUTO".
    pub device: String,
    /// Prefer models quantized to eight bits.
    pub quantized: bool,
    /// Number of CPU threads; other devices ignore it.
    pub threads: Option<usize>,
    /// Language code of the speech.
    pub language: String,
    /// Translate other languages to English.
    pub translate: bool,
    /// Load the model when a recording begins instead of at startup.
    pub on_demand_loading: bool,
}

/// The device that runs the model where none is named.
pub fn default_openvino_device() -> (res: String)
    ensures
        res@ == "NPU"@,
{
    "NPU".to_owned()
}

/// The language code of the speech where none is named.
pub fn default_openvino_language() -> (res: String)
    ensures
        res@ == "en"@,
{
    "en".to_owned()
}

impl Default for OpenVinoConfig {
    fn default() -> (res: Self)
        ensures
            res.model@ == "base.en"@,
            res.device@ == "NPU"@,
            res.quantized,
            res.threads is None,
            res.language@ == "en"@,
            !res.translate,
            !res.on_demand_loading,
    {
        OpenVinoConfig {
            model: "base.en".to_owned(),
            device: default_openvino_device(),
            quantized: true,
            threads: None,
            language: default_openvino_language(),
            translate: false,
            on_demand_loading: false,
        }
    }
}

} // verus!
