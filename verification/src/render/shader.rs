//! Shader sources: loading them from bytes and preparing them for compilation.
use vstd::prelude::*;
use vstd::utf8::{encode_utf8, valid_utf8};

verus! {

/// A shader written in WGSL.
#[derive(Clone, Debug)]
pub struct Shader {
    pub source: Source,
}

/// The text of a shader.
#[derive(Clone, Debug)]
pub struct Source(pub String);

impl Shader {
    pub fn from_wgsl(source: String) -> (r: Shader)
        ensures
            r.source.0@ == source@,
    {
        Shader { source: Source(source) }
    }
}

/// A shader's text once it is ready to be compiled.
#[derive(Debug, PartialEq, Eq)]
pub struct ProcessedShader(pub String);

impl ProcessedShader {
    pub fn get_source(&self) -> (r: &str)
        ensures
            r@ == self.0@,
    {
        self.0.as_str()
    }
}

/// Why a shader cannot be processed.
#[derive(Debug, Clone, Copy, PartialEq, Eq, Structural)]
pub enum ProcessShaderError {
    /// The shader's format does not support imports.
    ShaderFormatDoesNotSupportImports,
}

/// Prepares shaders for compilation.
pub struct ShaderProcessor;

impl ShaderProcessor {
    /// The shader's text, as it is: WGSL shaders have no imports or definitions to resolve,
    /// so `shader_defs` has no effect.
    pub fn process(&self, shader: &Shader, shader_defs: &[String]) -> (r: Result<ProcessedShader, ProcessShaderError>)
        ensures
            r matches Ok(p) && p.0@ == shader.source.0@,
    {
        Ok(ProcessedShader(shader.source.0.clone()))
    }
}

/// Why bytes could not be loaded as a shader.
#[derive(Debug, Clone, Copy, PartialEq, Eq, Structural)]
pub enum ShaderLoadError {
    /// The bytes are not UTF-8.
    InvalidUtf8,
}

/// Calls `String::from_utf8`. Trusted: as std documents, it succeeds exactly when the
/// bytes are valid UTF-8, and the string then encodes to those bytes.
#[verifier::external_body]
fn string_from_utf8(bytes: Vec<u8>) -> (r: Option<String>)
    ensures
        match r {
            Some(s) => valid_utf8(bytes@) && encode_utf8(s@) == bytes@,
            None => !valid_utf8(bytes@),
        },
{
    String::from_utf8(bytes).ok()
}

/// Loads `.wgsl` files as shaders.
#[derive(Default)]
pub struct ShaderLoader;

impl ShaderLoader {
    /// The shader whose WGSL text the bytes encode.
    pub fn load(&self, bytes: Vec<u8>) -> (r: Result<Shader, ShaderLoadError>)
        ensures
            match r {
                Ok(shader) => valid_utf8(bytes@) && encode_utf8(shader.source.0@) == bytes@,
                Err(e) => e == ShaderLoadError::InvalidUtf8 && !valid_utf8(bytes@),
            },
    {
        match string_from_utf8(bytes) {
            Some(text) => Ok(Shader::from_wgsl(text)),
            None => Err(ShaderLoadError::InvalidUtf8),
        }
    }
}

} // verus!
