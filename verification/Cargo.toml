[package]
name = "alengine"
version = "0.1.0"
edition = "2021"
publish = false

[dependencies]
cgmath = "0.18"
js-sys = "0.3"
wasm-bindgen = "0.2"
wasm-bindgen-futures = "0.4"

[dependencies.web-sys]
version = "0.3"
features = [
    "Window", "Document", "Element", "HtmlCanvasElement", "Navigator", "ImageBitmap",
    "Gpu", "GpuAdapter", "GpuDevice", "GpuQueue", "GpuBuffer", "GpuBufferDescriptor",
    "GpuCanvasContext", "GpuCanvasConfiguration", "GpuTexture", "GpuTextureDescriptor",
    "GpuTextureFormat", "GpuTextureView", "GpuBindGroup", "GpuBindGroupDescriptor",
    "GpuBindGroupEntry", "GpuBindGroupLayout", "GpuBindGroupLayoutDescriptor",
    "GpuBindGroupLayoutEntry", "GpuBufferBindingLayout", "GpuPipelineLayout",
    "GpuPipelineLayoutDescriptor", "GpuRenderPipeline", "GpuRenderPipelineDescriptor",
    "GpuShaderModule", "GpuShaderModuleDescriptor", "GpuVertexState", "GpuFragmentState",
    "GpuColorTargetState", "GpuDepthStencilState", "GpuCompareFunction", "GpuAutoLayoutMode",
    "GpuVertexAttribute", "GpuVertexBufferLayout", "GpuVertexFormat", "GpuPrimitiveState",
    "GpuPrimitiveTopology", "GpuCommandEncoder", "GpuCommandBuffer", "GpuRenderPassEncoder",
    "GpuRenderPassDescriptor", "GpuRenderPassColorAttachment",
    "GpuRenderPassDepthStencilAttachment", "GpuLoadOp", "GpuStoreOp", "GpuIndexFormat",
    "GpuSampler", "GpuSamplerDescriptor", "GpuSamplerBindingLayout", "GpuTextureBindingLayout",
    "GpuAddressMode", "GpuFilterMode", "GpuCopyExternalImageSourceInfo",
    "GpuCopyExternalImageDestInfo", "GpuExtent3dDict", "GpuBlendState", "GpuBlendComponent",
    "GpuBlendFactor", "GpuBlendOperation",
]
