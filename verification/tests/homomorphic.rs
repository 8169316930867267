use blind_compute::interpreter::parse;
use blind_compute::operands::encrypt_each;
use blind_compute::program::{EvalError, Instruction};
use fhe::bfv::{BfvParameters, BfvParametersBuilder, Ciphertext, Encoding, Plaintext, PublicKey, SecretKey};
use fhe_traits::{FheDecoder, FheDecrypter, FheEncoder, FheEncrypter};
use std::sync::Arc;

fn parameters() -> Arc<BfvParameters> {
    BfvParametersBuilder::new()
        .set_degree(2048)
        .set_moduli(&[0xffffffffffc0001])
        .set_plaintext_modulus(1 << 8)
        .build_arc()
        .unwrap()
}

fn keys(params: &Arc<BfvParameters>) -> (SecretKey, PublicKey) {
    let mut rng = rand::rng();
    let sk = SecretKey::random(params, &mut rng);
    let pk = PublicKey::new(&sk, &mut rng);
    (sk, pk)
}

fn encrypt(params: &Arc<BfvParameters>, pk: &PublicKey, value: u64) -> Result<Ciphertext, fhe::Error> {
    let mut rng = rand::rng();
    let input: Vec<u64> = vec![value];
    let pt = Plaintext::try_encode(&input, Encoding::poly(), params)?;
    pk.try_encrypt(&pt, &mut rng)
}

fn decrypt(sk: &SecretKey, ct: &Ciphertext) -> u64 {
    let pt = sk.try_decrypt(ct).unwrap();
    Vec::<u64>::try_decode(&pt, Encoding::poly()).unwrap()[0]
}

fn multiply(a: Ciphertext, b: Ciphertext) -> Ciphertext {
    &a * &b
}

fn product_of_three() -> Vec<Instruction> {
    vec![
        Instruction::Arg(0),
        Instruction::Arg(1),
        Instruction::BinaryOp,
        Instruction::Arg(2),
        Instruction::BinaryOp,
    ]
}

#[test]
fn product_of_encrypted_operands_decrypts_to_eighty() {
    let params = parameters();
    let (sk, pk) = keys(&params);
    let encrypted = encrypt_each(|v| encrypt(&params, &pk, v), vec![2, 4, 10]).unwrap();
    assert_eq!(encrypted.len(), 3);
    let execute = parse(product_of_three(), multiply);
    let output = execute.run(encrypted).unwrap();
    assert_eq!(decrypt(&sk, &output), 80);
}

#[test]
fn encrypted_operands_keep_their_order() {
    let params = parameters();
    let (sk, pk) = keys(&params);
    let encrypted = encrypt_each(|v| encrypt(&params, &pk, v), vec![7, 11, 13]).unwrap();
    let opened: Vec<u64> = encrypted.iter().map(|ct| decrypt(&sk, ct)).collect();
    assert_eq!(opened, vec![7, 11, 13]);
}

#[test]
fn one_evaluator_serves_two_encrypted_runs() {
    let params = parameters();
    let (sk, pk) = keys(&params);
    let execute = parse(product_of_three(), multiply);
    let first = encrypt_each(|v| encrypt(&params, &pk, v), vec![2, 4, 10]).unwrap();
    let second = encrypt_each(|v| encrypt(&params, &pk, v), vec![1, 1, 1]).unwrap();
    assert_eq!(decrypt(&sk, &execute.run(first).unwrap()), 80);
    assert_eq!(decrypt(&sk, &execute.run(second).unwrap()), 1);
}

#[test]
fn too_few_encrypted_operands_are_reported() {
    let params = parameters();
    let (_sk, pk) = keys(&params);
    let encrypted = encrypt_each(|v| encrypt(&params, &pk, v), vec![2, 4]).unwrap();
    let execute = parse(product_of_three(), multiply);
    assert!(matches!(execute.run(encrypted), Err(EvalError::InsufficientArguments)));
}
