//! Orders of the distinguished roots of the BN254 scalar field.

use crate::field::{fmul, fpow, lemma_fpow_add};
use crate::field::bn256::{fr_modulus, fr_root_of_unity_val, fr_zeta_val};
use vstd::arithmetic::power2::{lemma2_to64, lemma_pow2_unfold, pow2};
use vstd::prelude::*;

verus! {

/// One squaring: from `w^(2^k) = x` and `x * x = y` to `w^(2^(k+1)) = y`.
proof fn lemma_square_step(w: int, k: nat, x: int, y: int)
    requires
        fpow(fr_modulus(), w, pow2(k)) == x,
        (x * x) % fr_modulus() == y,
    ensures
        fpow(fr_modulus(), w, pow2(k + 1)) == y,
{
    lemma_pow2_unfold(k + 1);
    assert(pow2(k + 1) == pow2(k) + pow2(k));
    lemma_fpow_add(fr_modulus(), w, pow2(k), pow2(k));
}

/// The root of unity has the order `2^28`, and zeta is a non-trivial cube root
/// of one.
pub proof fn lemma_root_of_unity()
    ensures
        fpow(fr_modulus(), fr_root_of_unity_val(), pow2(28)) == 1,
        fpow(fr_modulus(), fr_root_of_unity_val(), pow2(27)) == fr_modulus() - 1,
        fmul(fr_modulus(), fmul(fr_modulus(), fr_zeta_val(), fr_zeta_val()), fr_zeta_val()) == 1,
{
    let w = fr_root_of_unity_val();
    lemma2_to64();
    assert(fpow(fr_modulus(), w, 1) == w) by {
        reveal_with_fuel(fpow, 2);
        vstd::arithmetic::div_mod::lemma_small_mod(1, fr_modulus() as nat);
        vstd::arithmetic::div_mod::lemma_small_mod(w as nat, fr_modulus() as nat);
    }
    lemma_square_step(
        w,
        0,
        0x3ddb9f5166d18b798865ea93dd31f743215cf6dd39329c8d34f1ed960c37c9cint,
        0x148e611dd90e580c5258ffea8d1604d408d6377ca2f0e806998550aa8f948006int,
    );
    lemma_square_step(
        w,
        1,
        0x148e611dd90e580c5258ffea8d1604d408d6377ca2f0e806998550aa8f948006int,
        0x1dba8b5bdd64ef6ce29a9039aca3c0e524395c43b9227b96c75090cc6cc7ec97int,
    );
    lemma_square_step(
        w,
        2,
        0x1dba8b5bdd64ef6ce29a9039aca3c0e524395c43b9227b96c75090cc6cc7ec97int,
        0xd94d63997367c97a8ed16c17adaae39262b9af83acb9e003f94c217303dd160int,
    );
    lemma_square_step(
        w,
        3,
        0xd94d63997367c97a8ed16c17adaae39262b9af83acb9e003f94c217303dd160int,
        0x1951441010b2b95a6e47a6075066a50a036f5ba978c050f2821df86636c0facbint,
    );
    lemma_square_step(
        w,
        4,
        0x1951441010b2b95a6e47a6075066a50a036f5ba978c050f2821df86636c0facbint,
        0x1283ba6f4b7b1a76ba2008fe823128bea4adb9269cbfd7c41c223be65bc60863int,
    );
    lemma_square_step(
        w,
        5,
        0x1283ba6f4b7b1a76ba2008fe823128bea4adb9269cbfd7c41c223be65bc60863int,
        0x18c95f1ae6514e11a1b30fd7923947c5ffcec5347f16e91b4dd654168326bedeint,
    );
    lemma_square_step(
        w,
        6,
        0x18c95f1ae6514e11a1b30fd7923947c5ffcec5347f16e91b4dd654168326bedeint,
        0x32750f8f3c2493d0828c7285d0258e1bdcaa463f4442a52747b5c96639659bbint,
    );
    lemma_square_step(
        w,
        7,
        0x32750f8f3c2493d0828c7285d0258e1bdcaa463f4442a52747b5c96639659bbint,
        0x2a14464f1ff42de3856402b62520e670745e39fada049d5b2f0e1e3182673378int,
    );
    lemma_square_step(
        w,
        8,
        0x2a14464f1ff42de3856402b62520e670745e39fada049d5b2f0e1e3182673378int,
        0xcf1526aaafac6bacbb67d11a4077806b123f767e4b0883d14cc0193568fc082int,
    );
    lemma_square_step(
        w,
        9,
        0xcf1526aaafac6bacbb67d11a4077806b123f767e4b0883d14cc0193568fc082int,
        0xf60c8fe0414cb9379b2d39267945f6bd60d06a05216231b26a9fcf88ddbfebeint,
    );
    lemma_square_step(
        w,
        10,
        0xf60c8fe0414cb9379b2d39267945f6bd60d06a05216231b26a9fcf88ddbfebeint,
        0x304cd1e79cfa5b0f054e981a27ed7706e7ea6b06a7f266ef8db819c179c2c3eaint,
    );
    lemma_square_step(
        w,
        11,
        0x304cd1e79cfa5b0f054e981a27ed7706e7ea6b06a7f266ef8db819c179c2c3eaint,
        0x9d2cc4b5782fbe923e49ace3f647643a5f5d8fb89091c3ababd582133584b29int,
    );
    lemma_square_step(
        w,
        12,
        0x9d2cc4b5782fbe923e49ace3f647643a5f5d8fb89091c3ababd582133584b29int,
        0x2b7ddfe4383c8d806530b94d3120ce6fcb511871e4d44a65f0acd0b96a8a942eint,
    );
    lemma_square_step(
        w,
        13,
        0x2b7ddfe4383c8d806530b94d3120ce6fcb511871e4d44a65f0acd0b96a8a942eint,
        0x2337acd19f40bf2b2aa212849e9a0c07d626d9ca335d73a09119dbe6eaab3cacint,
    );
    lemma_square_step(
        w,
        14,
        0x2337acd19f40bf2b2aa212849e9a0c07d626d9ca335d73a09119dbe6eaab3cacint,
        0x10e3d295c1599ff535a1bb49f23d81aa03bd0ed25881f9ed12b179af67f67ae1int,
    );
    lemma_square_step(
        w,
        15,
        0x10e3d295c1599ff535a1bb49f23d81aa03bd0ed25881f9ed12b179af67f67ae1int,
        0x2f6122bbf1d35fdaa9953f60087a423238aa810773efee2a251aa6161f2e6ee6int,
    );
    lemma_square_step(
        w,
        16,
        0x2f6122bbf1d35fdaa9953f60087a423238aa810773efee2a251aa6161f2e6ee6int,
        0x14c60185e75885d674db4b3f7d4a5694fa6c01aa0f53557b060bc04a4172705fint,
    );
    lemma_square_step(
        w,
        17,
        0x14c60185e75885d674db4b3f7d4a5694fa6c01aa0f53557b060bc04a4172705fint,
        0x2ad9021ed07c42ab19f77c5cf2cbd2deb135ea330f1b1573bd08d99309c4bb7dint,
    );
    lemma_square_step(
        w,
        18,
        0x2ad9021ed07c42ab19f77c5cf2cbd2deb135ea330f1b1573bd08d99309c4bb7dint,
        0xdd30b9ad8c173555d2a33029bc807ac165b61281e9054a173af7ff4e4fc88fcint,
    );
    lemma_square_step(
        w,
        19,
        0xdd30b9ad8c173555d2a33029bc807ac165b61281e9054a173af7ff4e4fc88fcint,
        0x1058a83d529be585820b96ff0a13f2dbd8675a9e5dd2336a6692cc1e5a526c81int,
    );
    lemma_square_step(
        w,
        20,
        0x1058a83d529be585820b96ff0a13f2dbd8675a9e5dd2336a6692cc1e5a526c81int,
        0x2822ef9d2d155c2b49f7a010aeec0dae3df9cff80535c8d08c9e954b942e6d6bint,
    );
    lemma_square_step(
        w,
        21,
        0x2822ef9d2d155c2b49f7a010aeec0dae3df9cff80535c8d08c9e954b942e6d6bint,
        0x1c4c3a258629905ef6036a4037c3aa6ae18d1d2452d64bd2684cfa8ede70fdc7int,
    );
    lemma_square_step(
        w,
        22,
        0x1c4c3a258629905ef6036a4037c3aa6ae18d1d2452d64bd2684cfa8ede70fdc7int,
        0x9c532c6306b93d29678200d47c0b2a99c18d51b838eeb1d3eed4c533bb512d0int,
    );
    lemma_square_step(
        w,
        23,
        0x9c532c6306b93d29678200d47c0b2a99c18d51b838eeb1d3eed4c533bb512d0int,
        0x21082ca216cbbf4e1c6e4f4594dd508c996dfbe1174efb98b11509c6e306460bint,
    );
    lemma_square_step(
        w,
        24,
        0x21082ca216cbbf4e1c6e4f4594dd508c996dfbe1174efb98b11509c6e306460bint,
        0x2b337de1c8c14f22ec9b9e2f96afef3652627366f8170a0a948dad4ac1bd5e80int,
    );
    lemma_square_step(
        w,
        25,
        0x2b337de1c8c14f22ec9b9e2f96afef3652627366f8170a0a948dad4ac1bd5e80int,
        0x30644e72e131a029048b6e193fd841045cea24f6fd736bec231204708f703636int,
    );
    lemma_square_step(
        w,
        26,
        0x30644e72e131a029048b6e193fd841045cea24f6fd736bec231204708f703636int,
        0x30644e72e131a029b85045b68181585d2833e84879b9709143e1f593f0000000int,
    );
    lemma_square_step(
        w,
        27,
        0x30644e72e131a029b85045b68181585d2833e84879b9709143e1f593f0000000int,
        0x1int,
    );
    assert(fmul(fr_modulus(), fr_zeta_val(), fr_zeta_val())
        == 0xb3c4d79d41a917585bfc41088d8daaa78b17ea66b99c90ddint);
    assert(fmul(fr_modulus(), 0xb3c4d79d41a917585bfc41088d8daaa78b17ea66b99c90ddint,
        fr_zeta_val()) == 1);
}

} // verus!
