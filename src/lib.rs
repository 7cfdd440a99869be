//! Textbook RSA over arbitrary-precision integers: modular exponentiation,
//! Euclid's algorithms, Euler's totient, the Miller-Rabin test, key
//! generation, and a hybrid RSA + AES-256-CBC envelope with SHA-256
//! signatures and PEM-like key text.
pub mod bignum;
pub mod fermat;
pub mod hybrid;
pub mod modular_arith;
pub mod number_theory;
pub mod pem;
pub mod primality;
pub mod rsa;
pub mod symmetric;
