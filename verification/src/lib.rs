pub mod behaviour;
pub mod chunk;
pub mod cpuid;
pub mod lane;
pub mod lasx;
pub mod laws;
pub mod lsx;
pub mod m128;
pub mod m256;
pub mod pixel;
pub mod vector;
pub mod verdicts;
