pub mod arg;
pub mod ast;
pub mod debug;
pub mod error;
pub mod gen_asm;
pub mod gen_asm_exp;
pub mod gen_ir;
pub mod gen_ir_exp;
pub mod gen_ir_variables;
pub mod ir;
pub mod reg_alloc;
pub mod util;
