use vstd::prelude::*;

verus! {

/// Largest model the runtime holds (8 MiB): the size of the buffer a model
/// file is read into.
pub const MAX_MODEL_SIZE: usize = 8 * 1024 * 1024;

/// A loaded model: its bytes and their count.
pub struct Model {
    pub data: Vec<u8>,
    pub size: usize,
}

/// The inference runtime: the model loaded last, if any.
pub struct AiRuntime {
    model: Option<Model>,
}

impl AiRuntime {
    /// The loaded model.
    pub closed spec fn model(&self) -> Option<Model> {
        self.model
    }

    /// No model loaded.
    pub fn new() -> (rt: Self)
        ensures
            rt.model() is None,
    {
        AiRuntime { model: None }
    }

    /// Whether a model is loaded.
    pub fn is_loaded(&self) -> (r: bool)
        ensures
            r == self.model() is Some,
    {
        self.model.is_some()
    }

    /// Size of the loaded model, if any.
    pub fn model_size(&self) -> (r: Option<usize>)
        ensures
            r == (match self.model() {
                Some(m) => Some(m.size),
                None => None::<usize>,
            }),
    {
        match &self.model {
            Some(m) => Some(m.size),
            None => None,
        }
    }
}

/// Takes the outcome of reading a model file into the model buffer:
/// the bytes read become the loaded model (replacing any earlier one); a
/// failed read gives `Err("fs read error")` and keeps the runtime as it was.
pub fn load_model(rt: &mut AiRuntime, read: Option<Vec<u8>>) -> (r: Result<(), &'static str>)
    requires
        read matches Some(d) ==> d@.len() <= MAX_MODEL_SIZE,
    ensures
        match read {
            Some(d) => r is Ok && final(rt).model() == Some(Model { data: d, size: d@.len() as usize }),
            None => r is Err && r->Err_0@ == "fs read error"@ && final(rt).model() == old(rt).model(),
        },
{
    match read {
        Some(d) => {
            let size = d.len();
            rt.model = Some(Model { data: d, size });
            Ok(())
        },
        None => Err("fs read error"),
    }
}

/// Runs inference on `prompt` with the loaded model. No model gives
/// "[ai-runtime] No hay modelo cargado", an empty model
/// "[ai-runtime] Modelo vacío", and a non-empty one
/// "[ai-runtime] Inferencia ejecutada (modelo cargado)".
pub fn infer(rt: &AiRuntime, prompt: &str) -> (r: &'static str)
    ensures
        match rt.model() {
            Some(m) => if m.size > 0 {
                r@ == "[ai-runtime] Inferencia ejecutada (modelo cargado)"@
            } else {
                r@ == "[ai-runtime] Modelo vacío"@
            },
            None => r@ == "[ai-runtime] No hay modelo cargado"@,
        },
{
    match &rt.model {
        Some(model) => {
            if model.size > 0 {
                "[ai-runtime] Inferencia ejecutada (modelo cargado)"
            } else {
                "[ai-runtime] Modelo vacío"
            }
        },
        None => "[ai-runtime] No hay modelo cargado",
    }
}

/// The fixed answer of the inference placeholder, whatever the prompt.
pub fn infer_stub(prompt: &str) -> (r: &'static str)
    ensures
        r@ == "[ai-runtime] Respuesta de ejemplo"@,
{
    "[ai-runtime] Respuesta de ejemplo"
}

} // verus!
