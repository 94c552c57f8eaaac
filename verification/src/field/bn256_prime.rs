//! The order of the BN254 scalar field is prime: the product of the orders of
//! a few elements exceeds its square root.

use crate::field::bn256::{fr_modulus, fr_root_of_unity_val};
use crate::field::bn256_roots::lemma_root_of_unity;
use crate::field::primality::{
    has_order, is_prime, lemma_fpow_divisor, lemma_orders_multiply, lemma_power_even,
    lemma_power_odd, lemma_prime_by_order, lemma_prime_field, lemma_prime_order, order_occurs,
    order_occurs_below,
};
use crate::field::small_primes::{
    lemma_prime_13, lemma_prime_1670836401704629, lemma_prime_237073, lemma_prime_405928799,
};
use crate::field::{fneg, fpow, is_field};
use crate::poly::fft::is_primitive;
use crate::poly::roots::{lemma_root_order, lemma_root_power};
use vstd::arithmetic::div_mod::{lemma_fundamental_div_mod, lemma_mod_multiples_vanish};
use vstd::arithmetic::power2::{lemma2_to64, pow2};
use vstd::prelude::*;

verus! {

/// The root of unity has the order `2^28` modulo every divisor.
proof fn lemma_order_of_root()
    ensures
        order_occurs_below(fr_modulus(), 268435456),
{
    let p = fr_modulus();
    let w = fr_root_of_unity_val();
    lemma_root_of_unity();
    lemma2_to64();
    assert(pow2(28) == 268435456);
    assert forall|l: int| 1 < l && p % l == 0 implies #[trigger] order_occurs(l, 268435456) by {
        assert(l != 2);
        lemma_fpow_divisor(p, l, w, pow2(27));
        assert((p - 1) % l == fneg(l, 1)) by {
            lemma_fundamental_div_mod(p, l);
            lemma_mod_multiples_vanish(p / l, -1, l);
        }
        assert(is_primitive(l, w, 28));
        lemma_root_power(l, w, 28);
        assert forall|k: nat| 0 < k < 268435456 implies #[trigger] fpow(l, w, k) != 1 by {
            lemma_root_order(l, w, 28, k);
        }
        assert(has_order(l, w, 268435456));
    }
}

/// Some element has the order 13.
proof fn lemma_order_13()
    ensures
        order_occurs_below(fr_modulus(), 13),
{
    let b = 0x2e167b2ab6ff98bb542b91ce1eb47e4fb4fc2d6a727502587705045d20d99a2dint;
    assert(fpow(fr_modulus(), b, 1) == b) by {
        reveal_with_fuel(fpow, 2);
    }
    lemma_power_odd(
        fr_modulus(),
        0x2e167b2ab6ff98bb542b91ce1eb47e4fb4fc2d6a727502587705045d20d99a2dint,
        1,
        0x2e167b2ab6ff98bb542b91ce1eb47e4fb4fc2d6a727502587705045d20d99a2dint,
        0x299cbacaf0292c633a4ba7ba43deb9076c9809b4eef315c1821d32edf465514aint,
    );
    lemma_power_even(
        fr_modulus(),
        b,
        3,
        0x299cbacaf0292c633a4ba7ba43deb9076c9809b4eef315c1821d32edf465514aint,
        0x13f5e6a2d4dc80214819d053766522e29a28f580b79c877ddf479456045f419dint,
    );
    lemma_power_odd(
        fr_modulus(),
        0x2e167b2ab6ff98bb542b91ce1eb47e4fb4fc2d6a727502587705045d20d99a2dint,
        6,
        0x13f5e6a2d4dc80214819d053766522e29a28f580b79c877ddf479456045f419dint,
        0x1int,
    );
    lemma_prime_13();
    assert(((0x2e167b2ab6ff98bb542b91ce1eb47e4fb4fc2d6a727502587705045d20d99a2dint - 1)
        * 0x1b2726a5a059a74757591b6ac1bb0848fdc8322b6259e500f9790934d8f600bint)
        % fr_modulus() == 1);
    lemma_prime_order(
        fr_modulus(),
        b,
        13,
        0x1b2726a5a059a74757591b6ac1bb0848fdc8322b6259e500f9790934d8f600bint,
    );
}

/// Some element has the order 237073.
proof fn lemma_order_237073()
    ensures
        order_occurs_below(fr_modulus(), 237073),
{
    let b = 0x2a5d5c124af2d5fab9671bee503d0c6c38796573ba198c2e30090506f558fcedint;
    assert(fpow(fr_modulus(), b, 1) == b) by {
        reveal_with_fuel(fpow, 2);
    }
    lemma_power_odd(
        fr_modulus(),
        0x2a5d5c124af2d5fab9671bee503d0c6c38796573ba198c2e30090506f558fcedint,
        1,
        0x2a5d5c124af2d5fab9671bee503d0c6c38796573ba198c2e30090506f558fcedint,
        0x33803d4bb0d92e190e650e673a718f9cd4ecd17f19a4e077787e6b8e4a5ffccint,
    );
    lemma_power_odd(
        fr_modulus(),
        0x2a5d5c124af2d5fab9671bee503d0c6c38796573ba198c2e30090506f558fcedint,
        3,
        0x33803d4bb0d92e190e650e673a718f9cd4ecd17f19a4e077787e6b8e4a5ffccint,
        0x499e1ee1d12ba661e5586b200989070781bb0fad894193d01bf1bd6743b19ecint,
    );
    lemma_power_even(
        fr_modulus(),
        b,
        7,
        0x499e1ee1d12ba661e5586b200989070781bb0fad894193d01bf1bd6743b19ecint,
        0x1a90d054e0215a424b77e150df5e5e2cd05eafe9d8986da7e540cb2cde69d30fint,
    );
    lemma_power_even(
        fr_modulus(),
        b,
        14,
        0x1a90d054e0215a424b77e150df5e5e2cd05eafe9d8986da7e540cb2cde69d30fint,
        0x158baf439c14868acd16ed9efbb694556f58e805ef4841b32a5059ecab97361bint,
    );
    lemma_power_odd(
        fr_modulus(),
        0x2a5d5c124af2d5fab9671bee503d0c6c38796573ba198c2e30090506f558fcedint,
        28,
        0x158baf439c14868acd16ed9efbb694556f58e805ef4841b32a5059ecab97361bint,
        0x161dfd40ef1becd97383d75e36cac2ce0441af50eb5c7ed9118e712e72d9fa1fint,
    );
    lemma_power_odd(
        fr_modulus(),
        0x2a5d5c124af2d5fab9671bee503d0c6c38796573ba198c2e30090506f558fcedint,
        57,
        0x161dfd40ef1becd97383d75e36cac2ce0441af50eb5c7ed9118e712e72d9fa1fint,
        0x321e58388898d64058cfba320587bf9f280717ba3b31eb7dee128fa93889b74int,
    );
    lemma_power_odd(
        fr_modulus(),
        0x2a5d5c124af2d5fab9671bee503d0c6c38796573ba198c2e30090506f558fcedint,
        115,
        0x321e58388898d64058cfba320587bf9f280717ba3b31eb7dee128fa93889b74int,
        0xeb95a80a5b267188d2f99481f91b95a1c8710b1a260067489ece4f544f72f7bint,
    );
    lemma_power_odd(
        fr_modulus(),
        0x2a5d5c124af2d5fab9671bee503d0c6c38796573ba198c2e30090506f558fcedint,
        231,
        0xeb95a80a5b267188d2f99481f91b95a1c8710b1a260067489ece4f544f72f7bint,
        0x1b45acbcbcc202f3d587c0f3f92c2404f97ec2be7cc37235e9de576d2f810609int,
    );
    lemma_power_even(
        fr_modulus(),
        b,
        463,
        0x1b45acbcbcc202f3d587c0f3f92c2404f97ec2be7cc37235e9de576d2f810609int,
        0xfacfc10de4484f9ac2f47c13081080268ec7227b143a4becbaa4304328e3aeeint,
    );
    lemma_power_even(
        fr_modulus(),
        b,
        926,
        0xfacfc10de4484f9ac2f47c13081080268ec7227b143a4becbaa4304328e3aeeint,
        0x2143e2d92e0127a8adffd47437bfbab9c61f66dfbf5f909ea8fe17d7ce48c0bcint,
    );
    lemma_power_even(
        fr_modulus(),
        b,
        1852,
        0x2143e2d92e0127a8adffd47437bfbab9c61f66dfbf5f909ea8fe17d7ce48c0bcint,
        0x26083f79a005d26cbcfdbf3773bcd1dc8c4c7e0697af4facf8fb1dcde33b066dint,
    );
    lemma_power_even(
        fr_modulus(),
        b,
        3704,
        0x26083f79a005d26cbcfdbf3773bcd1dc8c4c7e0697af4facf8fb1dcde33b066dint,
        0x22b26eb45a93a4db045c895bb12ce72200113c3c7092fa63bb16ab80e4e10fc7int,
    );
    lemma_power_odd(
        fr_modulus(),
        0x2a5d5c124af2d5fab9671bee503d0c6c38796573ba198c2e30090506f558fcedint,
        7408,
        0x22b26eb45a93a4db045c895bb12ce72200113c3c7092fa63bb16ab80e4e10fc7int,
        0x3ca96f8e8274e6234f46132c4406d8aa5e8433d685b58afa97cb395b491140int,
    );
    lemma_power_even(
        fr_modulus(),
        b,
        14817,
        0x3ca96f8e8274e6234f46132c4406d8aa5e8433d685b58afa97cb395b491140int,
        0x14210258e6ab687414d4d1f53f9bfbeae4078317f46fc6c0010cd177e35702bbint,
    );
    lemma_power_even(
        fr_modulus(),
        b,
        29634,
        0x14210258e6ab687414d4d1f53f9bfbeae4078317f46fc6c0010cd177e35702bbint,
        0x21da65d991a5baaf5b8d4c3dadb797f521c672d55576222e6f5269090f4ae8cbint,
    );
    lemma_power_even(
        fr_modulus(),
        b,
        59268,
        0x21da65d991a5baaf5b8d4c3dadb797f521c672d55576222e6f5269090f4ae8cbint,
        0x240275fac9af3e41f82721a8975c6ce989242857c4771d2782c52df2151e417eint,
    );
    lemma_power_odd(
        fr_modulus(),
        0x2a5d5c124af2d5fab9671bee503d0c6c38796573ba198c2e30090506f558fcedint,
        118536,
        0x240275fac9af3e41f82721a8975c6ce989242857c4771d2782c52df2151e417eint,
        0x1int,
    );
    lemma_prime_237073();
    assert(((0x2a5d5c124af2d5fab9671bee503d0c6c38796573ba198c2e30090506f558fcedint - 1)
        * 0x162a6c36039ef95b929d03977a9fe4b68eb449f4f3bb8ba2d1b7cbb98c04e5b4int)
        % fr_modulus() == 1);
    lemma_prime_order(
        fr_modulus(),
        b,
        237073,
        0x162a6c36039ef95b929d03977a9fe4b68eb449f4f3bb8ba2d1b7cbb98c04e5b4int,
    );
}

/// Some element has the order 405928799.
proof fn lemma_order_405928799()
    ensures
        order_occurs_below(fr_modulus(), 405928799),
{
    let b = 0x1f71dad7e4fb79ba1f708024c70892fa92776221871259f75b5e48a34129fe36int;
    assert(fpow(fr_modulus(), b, 1) == b) by {
        reveal_with_fuel(fpow, 2);
    }
    lemma_power_odd(
        fr_modulus(),
        0x1f71dad7e4fb79ba1f708024c70892fa92776221871259f75b5e48a34129fe36int,
        1,
        0x1f71dad7e4fb79ba1f708024c70892fa92776221871259f75b5e48a34129fe36int,
        0x5b0599a9a79f6fbe0315110b8e6aee4ac9744adf6bcdd3530e29df3de506131int,
    );
    lemma_power_even(
        fr_modulus(),
        b,
        3,
        0x5b0599a9a79f6fbe0315110b8e6aee4ac9744adf6bcdd3530e29df3de506131int,
        0x275ed375550f7885e0bac734880b8aa201308c4ce36545cb0ce8ea8c530ee0b1int,
    );
    lemma_power_even(
        fr_modulus(),
        b,
        6,
        0x275ed375550f7885e0bac734880b8aa201308c4ce36545cb0ce8ea8c530ee0b1int,
        0x74d7555633413e9a6916c5d37e44af1c8b504152e0774e26167f52306a5c40bint,
    );
    lemma_power_even(
        fr_modulus(),
        b,
        12,
        0x74d7555633413e9a6916c5d37e44af1c8b504152e0774e26167f52306a5c40bint,
        0xacd8c521747d1e8fa72f5311d93a2789419c950b63894dd76d117b8d3f65e2aint,
    );
    lemma_power_even(
        fr_modulus(),
        b,
        24,
        0xacd8c521747d1e8fa72f5311d93a2789419c950b63894dd76d117b8d3f65e2aint,
        0xfff14e327859ec9bd301943fcb3c0a8f791b5e7e76029e8c6dadbd0dcd3d774int,
    );
    lemma_power_even(
        fr_modulus(),
        b,
        48,
        0xfff14e327859ec9bd301943fcb3c0a8f791b5e7e76029e8c6dadbd0dcd3d774int,
        0x221562c3e3cbb25c5aca200971be3889356a1c6fcdcafb21c4a32b1cabf49153int,
    );
    lemma_power_odd(
        fr_modulus(),
        0x1f71dad7e4fb79ba1f708024c70892fa92776221871259f75b5e48a34129fe36int,
        96,
        0x221562c3e3cbb25c5aca200971be3889356a1c6fcdcafb21c4a32b1cabf49153int,
        0x14dfe523a9955828bfaa22c9ce8eb4a5c9406cc8fdd4db1222d2feccd193a8adint,
    );
    lemma_power_odd(
        fr_modulus(),
        0x1f71dad7e4fb79ba1f708024c70892fa92776221871259f75b5e48a34129fe36int,
        193,
        0x14dfe523a9955828bfaa22c9ce8eb4a5c9406cc8fdd4db1222d2feccd193a8adint,
        0x267a22547e95b436a49407a054074823b52365cd4a79cd6f4b2a164e24f6ba24int,
    );
    lemma_power_even(
        fr_modulus(),
        b,
        387,
        0x267a22547e95b436a49407a054074823b52365cd4a79cd6f4b2a164e24f6ba24int,
        0x1a03d18f6613974fe00a823a90bb8d52678af489dedc5c67a96b2a5e6d6b7164int,
    );
    lemma_power_even(
        fr_modulus(),
        b,
        774,
        0x1a03d18f6613974fe00a823a90bb8d52678af489dedc5c67a96b2a5e6d6b7164int,
        0x1a3d2908137a352a0c6a07178228a425dac9d56db5152b47bf74526b9757228fint,
    );
    lemma_power_even(
        fr_modulus(),
        b,
        1548,
        0x1a3d2908137a352a0c6a07178228a425dac9d56db5152b47bf74526b9757228fint,
        0x6f7830d024618e61b45540f5c6d7ba270038b116fb6e3abe457594a53ada05bint,
    );
    lemma_power_odd(
        fr_modulus(),
        0x1f71dad7e4fb79ba1f708024c70892fa92776221871259f75b5e48a34129fe36int,
        3096,
        0x6f7830d024618e61b45540f5c6d7ba270038b116fb6e3abe457594a53ada05bint,
        0xb8ec5c0ea083acd9586cafb4ea43f77e22f5879bed872b08cd280e0dd9782a2int,
    );
    lemma_power_odd(
        fr_modulus(),
        0x1f71dad7e4fb79ba1f708024c70892fa92776221871259f75b5e48a34129fe36int,
        6193,
        0xb8ec5c0ea083acd9586cafb4ea43f77e22f5879bed872b08cd280e0dd9782a2int,
        0xef354c326e697cdb4f65ded3e1b1768706b21828080fbba897e216a82fdc1e4int,
    );
    lemma_power_odd(
        fr_modulus(),
        0x1f71dad7e4fb79ba1f708024c70892fa92776221871259f75b5e48a34129fe36int,
        12387,
        0xef354c326e697cdb4f65ded3e1b1768706b21828080fbba897e216a82fdc1e4int,
        0xb060de6c61a587a3b871ee25b5b02c8a443d62cbe50e7075a35593afb427e08int,
    );
    lemma_power_odd(
        fr_modulus(),
        0x1f71dad7e4fb79ba1f708024c70892fa92776221871259f75b5e48a34129fe36int,
        24775,
        0xb060de6c61a587a3b871ee25b5b02c8a443d62cbe50e7075a35593afb427e08int,
        0x165482bd2bf2476af0c33a669e915b229a8e6a549de91eb14f61a7bbff13dbfaint,
    );
    lemma_power_odd(
        fr_modulus(),
        0x1f71dad7e4fb79ba1f708024c70892fa92776221871259f75b5e48a34129fe36int,
        49551,
        0x165482bd2bf2476af0c33a669e915b229a8e6a549de91eb14f61a7bbff13dbfaint,
        0x1a88d7aac664d4da19951a3b3ae4b689a4b0c156d2794d973086bdd86d366e18int,
    );
    lemma_power_odd(
        fr_modulus(),
        0x1f71dad7e4fb79ba1f708024c70892fa92776221871259f75b5e48a34129fe36int,
        99103,
        0x1a88d7aac664d4da19951a3b3ae4b689a4b0c156d2794d973086bdd86d366e18int,
        0x156e501dfd04c314bb8a3988fcf4eaf02c1f6399b549ebf424a9ded6c6656f90int,
    );
    lemma_power_even(
        fr_modulus(),
        b,
        198207,
        0x156e501dfd04c314bb8a3988fcf4eaf02c1f6399b549ebf424a9ded6c6656f90int,
        0xdfe6f3bded495639812e52c9342977040a7809f5c5ff2b15a415a1d0b97c865int,
    );
    lemma_power_odd(
        fr_modulus(),
        0x1f71dad7e4fb79ba1f708024c70892fa92776221871259f75b5e48a34129fe36int,
        396414,
        0xdfe6f3bded495639812e52c9342977040a7809f5c5ff2b15a415a1d0b97c865int,
        0xbb6fda1298f288683731117ceeadb3c292b3bfa80c8aad28a23f9c8fbbb3103int,
    );
    lemma_power_odd(
        fr_modulus(),
        0x1f71dad7e4fb79ba1f708024c70892fa92776221871259f75b5e48a34129fe36int,
        792829,
        0xbb6fda1298f288683731117ceeadb3c292b3bfa80c8aad28a23f9c8fbbb3103int,
        0x28137c20111d5bca5449d5a49f1a150fcc3fbacf7c88a1fda518eb8b63505378int,
    );
    lemma_power_even(
        fr_modulus(),
        b,
        1585659,
        0x28137c20111d5bca5449d5a49f1a150fcc3fbacf7c88a1fda518eb8b63505378int,
        0x2bc4e91c670870e8bd004966e494b0fe91fe31caacd207a44ce78bd0587f7eb7int,
    );
    lemma_power_odd(
        fr_modulus(),
        0x1f71dad7e4fb79ba1f708024c70892fa92776221871259f75b5e48a34129fe36int,
        3171318,
        0x2bc4e91c670870e8bd004966e494b0fe91fe31caacd207a44ce78bd0587f7eb7int,
        0x1fe7580f59c29399be1ee48c176b71c28f0fff648a64d614dbf43c36496046bdint,
    );
    lemma_power_even(
        fr_modulus(),
        b,
        6342637,
        0x1fe7580f59c29399be1ee48c176b71c28f0fff648a64d614dbf43c36496046bdint,
        0x2709fc47053f4f7931be7aba13e4b7fb36c33f1eb0f704bde0c6d570562a18ebint,
    );
    lemma_power_odd(
        fr_modulus(),
        0x1f71dad7e4fb79ba1f708024c70892fa92776221871259f75b5e48a34129fe36int,
        12685274,
        0x2709fc47053f4f7931be7aba13e4b7fb36c33f1eb0f704bde0c6d570562a18ebint,
        0x2bf0d69e9e880221b2a2b2692b7e822c02ebb187e20876159e390fa3cd386e8aint,
    );
    lemma_power_odd(
        fr_modulus(),
        0x1f71dad7e4fb79ba1f708024c70892fa92776221871259f75b5e48a34129fe36int,
        25370549,
        0x2bf0d69e9e880221b2a2b2692b7e822c02ebb187e20876159e390fa3cd386e8aint,
        0x1cbca1dda45466cc0879479b1776a2f84502b97e188a43d2f1e36933faaf328dint,
    );
    lemma_power_odd(
        fr_modulus(),
        0x1f71dad7e4fb79ba1f708024c70892fa92776221871259f75b5e48a34129fe36int,
        50741099,
        0x1cbca1dda45466cc0879479b1776a2f84502b97e188a43d2f1e36933faaf328dint,
        0x1c7a5a2cace60def3b30c168bc0db4456e31b72f21175d67614f03c97e10e2adint,
    );
    lemma_power_odd(
        fr_modulus(),
        0x1f71dad7e4fb79ba1f708024c70892fa92776221871259f75b5e48a34129fe36int,
        101482199,
        0x1c7a5a2cace60def3b30c168bc0db4456e31b72f21175d67614f03c97e10e2adint,
        0x1dbcc7a3b6ddd597960ce080ee0c513f4972fedd342062289ea1ed976571d545int,
    );
    lemma_power_odd(
        fr_modulus(),
        0x1f71dad7e4fb79ba1f708024c70892fa92776221871259f75b5e48a34129fe36int,
        202964399,
        0x1dbcc7a3b6ddd597960ce080ee0c513f4972fedd342062289ea1ed976571d545int,
        0x1int,
    );
    lemma_prime_405928799();
    assert(((0x1f71dad7e4fb79ba1f708024c70892fa92776221871259f75b5e48a34129fe36int - 1)
        * 0x1a3cedaebd80ff06719ef42c967c3d9b9d4141d2c218a2c397c74553d289a00fint)
        % fr_modulus() == 1);
    lemma_prime_order(
        fr_modulus(),
        b,
        405928799,
        0x1a3cedaebd80ff06719ef42c967c3d9b9d4141d2c218a2c397c74553d289a00fint,
    );
}

/// Some element has the order 1670836401704629.
proof fn lemma_order_1670836401704629()
    ensures
        order_occurs_below(fr_modulus(), 1670836401704629),
{
    let b = 0x2200524a255dbf6af47485a398ccebd619e3d57040f03e65be26ba6bf27f8ff3int;
    assert(fpow(fr_modulus(), b, 1) == b) by {
        reveal_with_fuel(fpow, 2);
    }
    lemma_power_even(
        fr_modulus(),
        b,
        1,
        0x2200524a255dbf6af47485a398ccebd619e3d57040f03e65be26ba6bf27f8ff3int,
        0x2acdbea3c5d2e746fb67e131fa516a7ed25bb8e97da235d0e8ff4ecb7a45b440int,
    );
    lemma_power_odd(
        fr_modulus(),
        0x2200524a255dbf6af47485a398ccebd619e3d57040f03e65be26ba6bf27f8ff3int,
        2,
        0x2acdbea3c5d2e746fb67e131fa516a7ed25bb8e97da235d0e8ff4ecb7a45b440int,
        0x96b71f34b730b36061c8ed4331f084641cb1122b36c6944200d8488b2bf3e95int,
    );
    lemma_power_odd(
        fr_modulus(),
        0x2200524a255dbf6af47485a398ccebd619e3d57040f03e65be26ba6bf27f8ff3int,
        5,
        0x96b71f34b730b36061c8ed4331f084641cb1122b36c6944200d8488b2bf3e95int,
        0x1e66549d28d32566ee04bfa4e2d99c59e4b55603287dda6ebdf59bcc4fa53d38int,
    );
    lemma_power_odd(
        fr_modulus(),
        0x2200524a255dbf6af47485a398ccebd619e3d57040f03e65be26ba6bf27f8ff3int,
        11,
        0x1e66549d28d32566ee04bfa4e2d99c59e4b55603287dda6ebdf59bcc4fa53d38int,
        0x11eebb9f9245ad5eb31da4a028bbcdebf54a84acf8258cc08000592d396e2decint,
    );
    lemma_power_odd(
        fr_modulus(),
        0x2200524a255dbf6af47485a398ccebd619e3d57040f03e65be26ba6bf27f8ff3int,
        23,
        0x11eebb9f9245ad5eb31da4a028bbcdebf54a84acf8258cc08000592d396e2decint,
        0x2f78e42498f0215ad8e17bb71a409034059343aecede3b34f0ec2d69b80b903cint,
    );
    lemma_power_even(
        fr_modulus(),
        b,
        47,
        0x2f78e42498f0215ad8e17bb71a409034059343aecede3b34f0ec2d69b80b903cint,
        0x723488d1d5509ebd9d924cbae1995d192e4c8fbf3a1ad4313dea2e1910c28daint,
    );
    lemma_power_odd(
        fr_modulus(),
        0x2200524a255dbf6af47485a398ccebd619e3d57040f03e65be26ba6bf27f8ff3int,
        94,
        0x723488d1d5509ebd9d924cbae1995d192e4c8fbf3a1ad4313dea2e1910c28daint,
        0x3919d8dc0ae2f9c759b8b465b0430f91aa60910d9a767345cf8939c38a71000int,
    );
    lemma_power_odd(
        fr_modulus(),
        0x2200524a255dbf6af47485a398ccebd619e3d57040f03e65be26ba6bf27f8ff3int,
        189,
        0x3919d8dc0ae2f9c759b8b465b0430f91aa60910d9a767345cf8939c38a71000int,
        0x21826ec1d81d44b29f5610aab954c629bc4a513ba65100841806c0db1bba3504int,
    );
    lemma_power_odd(
        fr_modulus(),
        0x2200524a255dbf6af47485a398ccebd619e3d57040f03e65be26ba6bf27f8ff3int,
        379,
        0x21826ec1d81d44b29f5610aab954c629bc4a513ba65100841806c0db1bba3504int,
        0x153c09003eb9f67679a1d66f8dd031956aaf8d80ec10f87f1341a1b93c53dd41int,
    );
    lemma_power_odd(
        fr_modulus(),
        0x2200524a255dbf6af47485a398ccebd619e3d57040f03e65be26ba6bf27f8ff3int,
        759,
        0x153c09003eb9f67679a1d66f8dd031956aaf8d80ec10f87f1341a1b93c53dd41int,
        0x222549e549ac1af71e0bd5a1b03ead31917e1bf9bcb81ce8c02b7ca70d7de58aint,
    );
    lemma_power_odd(
        fr_modulus(),
        0x2200524a255dbf6af47485a398ccebd619e3d57040f03e65be26ba6bf27f8ff3int,
        1519,
        0x222549e549ac1af71e0bd5a1b03ead31917e1bf9bcb81ce8c02b7ca70d7de58aint,
        0x1eb0d16cc5549273bba48fe6e245531a5b7ca792c7266408d1aec36c0e41d75dint,
    );
    lemma_power_even(
        fr_modulus(),
        b,
        3039,
        0x1eb0d16cc5549273bba48fe6e245531a5b7ca792c7266408d1aec36c0e41d75dint,
        0x9734583a2192652a254c224c8dc72bed931d0f8a68132a3df73d74a844fd2ceint,
    );
    lemma_power_even(
        fr_modulus(),
        b,
        6078,
        0x9734583a2192652a254c224c8dc72bed931d0f8a68132a3df73d74a844fd2ceint,
        0xb954fffda73683c07f990e81bfb880727efdd665731e913358332b6a6a159d8int,
    );
    lemma_power_odd(
        fr_modulus(),
        0x2200524a255dbf6af47485a398ccebd619e3d57040f03e65be26ba6bf27f8ff3int,
        12156,
        0xb954fffda73683c07f990e81bfb880727efdd665731e913358332b6a6a159d8int,
        0x1cbc9671676b8de134057e0ef39860495985221589c94910e79e4465cf62cadaint,
    );
    lemma_power_odd(
        fr_modulus(),
        0x2200524a255dbf6af47485a398ccebd619e3d57040f03e65be26ba6bf27f8ff3int,
        24313,
        0x1cbc9671676b8de134057e0ef39860495985221589c94910e79e4465cf62cadaint,
        0x2e92233ba84cc0dd768aebb14c12c367583e0f0f034a31d7eb88d2de3f62a300int,
    );
    lemma_power_odd(
        fr_modulus(),
        0x2200524a255dbf6af47485a398ccebd619e3d57040f03e65be26ba6bf27f8ff3int,
        48627,
        0x2e92233ba84cc0dd768aebb14c12c367583e0f0f034a31d7eb88d2de3f62a300int,
        0x174678f505ed93e359dca7d24bd48975a2ad784b523d9a052204272e755d1dd4int,
    );
    lemma_power_even(
        fr_modulus(),
        b,
        97255,
        0x174678f505ed93e359dca7d24bd48975a2ad784b523d9a052204272e755d1dd4int,
        0x1936b0dc1eb0940a3073257f25fcb60efa2974c21d8efca192ec4063ce9ff2acint,
    );
    lemma_power_odd(
        fr_modulus(),
        0x2200524a255dbf6af47485a398ccebd619e3d57040f03e65be26ba6bf27f8ff3int,
        194510,
        0x1936b0dc1eb0940a3073257f25fcb60efa2974c21d8efca192ec4063ce9ff2acint,
        0x6c0386a63a1031c52fe56a67b5698030b5ea23a2741be59b61a12a436af2ba6int,
    );
    lemma_power_odd(
        fr_modulus(),
        0x2200524a255dbf6af47485a398ccebd619e3d57040f03e65be26ba6bf27f8ff3int,
        389021,
        0x6c0386a63a1031c52fe56a67b5698030b5ea23a2741be59b61a12a436af2ba6int,
        0x1695c852c1dbd0764e59c4579fb07eda9d0964d41a6a1ba48116d307025c9f44int,
    );
    lemma_power_odd(
        fr_modulus(),
        0x2200524a255dbf6af47485a398ccebd619e3d57040f03e65be26ba6bf27f8ff3int,
        778043,
        0x1695c852c1dbd0764e59c4579fb07eda9d0964d41a6a1ba48116d307025c9f44int,
        0x1f406814fb0c92855027f60c30d71da27ab63aed880d8f632ad0414eb4cd1facint,
    );
    lemma_power_odd(
        fr_modulus(),
        0x2200524a255dbf6af47485a398ccebd619e3d57040f03e65be26ba6bf27f8ff3int,
        1556087,
        0x1f406814fb0c92855027f60c30d71da27ab63aed880d8f632ad0414eb4cd1facint,
        0x172fd473218a3a1d15e8a177ae50576442f652257fe5764dd1b5cf3385f2fa75int,
    );
    lemma_power_even(
        fr_modulus(),
        b,
        3112175,
        0x172fd473218a3a1d15e8a177ae50576442f652257fe5764dd1b5cf3385f2fa75int,
        0x207eb9754cf90b268bc0e1fd134e480331d6328f5ddd1b26aabad2be02bcb4d9int,
    );
    lemma_power_odd(
        fr_modulus(),
        0x2200524a255dbf6af47485a398ccebd619e3d57040f03e65be26ba6bf27f8ff3int,
        6224350,
        0x207eb9754cf90b268bc0e1fd134e480331d6328f5ddd1b26aabad2be02bcb4d9int,
        0xf5c7c51a2b51ce8a4b11aa0105c07eda8453f8ad4f8c2c3f7cdf8b18b030ec2int,
    );
    lemma_power_even(
        fr_modulus(),
        b,
        12448701,
        0xf5c7c51a2b51ce8a4b11aa0105c07eda8453f8ad4f8c2c3f7cdf8b18b030ec2int,
        0x6e919b9a5f4e37103f33c885bfad10396e2269e6be88f5bc9d5c492e95f0137int,
    );
    lemma_power_odd(
        fr_modulus(),
        0x2200524a255dbf6af47485a398ccebd619e3d57040f03e65be26ba6bf27f8ff3int,
        24897402,
        0x6e919b9a5f4e37103f33c885bfad10396e2269e6be88f5bc9d5c492e95f0137int,
        0xe1fa8aa5222810308e09b11edc5b844a201700977d0a50d22f1c9dd79dc8a56int,
    );
    lemma_power_even(
        fr_modulus(),
        b,
        49794805,
        0xe1fa8aa5222810308e09b11edc5b844a201700977d0a50d22f1c9dd79dc8a56int,
        0x688c2bfdf14ad8d79bd22e03317df1ee76de92668ae1f5c654715f8bfb8efbcint,
    );
    lemma_power_even(
        fr_modulus(),
        b,
        99589610,
        0x688c2bfdf14ad8d79bd22e03317df1ee76de92668ae1f5c654715f8bfb8efbcint,
        0x119db120f98b4969114fa045ac6a9c38efbd5b3a457dd171fd619e8e30c1be02int,
    );
    lemma_power_even(
        fr_modulus(),
        b,
        199179220,
        0x119db120f98b4969114fa045ac6a9c38efbd5b3a457dd171fd619e8e30c1be02int,
        0x1af6d116cde7e704e7a5c2b7dde63cdea32ad39da541baa922303f3e1873f3f9int,
    );
    lemma_power_odd(
        fr_modulus(),
        0x2200524a255dbf6af47485a398ccebd619e3d57040f03e65be26ba6bf27f8ff3int,
        398358440,
        0x1af6d116cde7e704e7a5c2b7dde63cdea32ad39da541baa922303f3e1873f3f9int,
        0x15f436cbcb54cc12ce0b90561993aca8632577b79a7929267dc6f8a8682dffb2int,
    );
    lemma_power_odd(
        fr_modulus(),
        0x2200524a255dbf6af47485a398ccebd619e3d57040f03e65be26ba6bf27f8ff3int,
        796716881,
        0x15f436cbcb54cc12ce0b90561993aca8632577b79a7929267dc6f8a8682dffb2int,
        0x55c58e25937ee4bf3b03617ac95ee5372b4312fabeead105b7c3bc3c1ab1449int,
    );
    lemma_power_even(
        fr_modulus(),
        b,
        1593433763,
        0x55c58e25937ee4bf3b03617ac95ee5372b4312fabeead105b7c3bc3c1ab1449int,
        0x1346b38cc0f26abe6d2a1b7f16e17b03c986ca4ae852bd1780492371903cdaccint,
    );
    lemma_power_even(
        fr_modulus(),
        b,
        3186867526,
        0x1346b38cc0f26abe6d2a1b7f16e17b03c986ca4ae852bd1780492371903cdaccint,
        0xafa615d887f18b3ecd3fde847129641b38526ce34ecac3d964ff2a88e733a1eint,
    );
    lemma_power_odd(
        fr_modulus(),
        0x2200524a255dbf6af47485a398ccebd619e3d57040f03e65be26ba6bf27f8ff3int,
        6373735052,
        0xafa615d887f18b3ecd3fde847129641b38526ce34ecac3d964ff2a88e733a1eint,
        0xe9721b32c75056de03e1ff237f4b66c4d45d36ebcf26b0a694948b964c65beint,
    );
    lemma_power_odd(
        fr_modulus(),
        0x2200524a255dbf6af47485a398ccebd619e3d57040f03e65be26ba6bf27f8ff3int,
        12747470105,
        0xe9721b32c75056de03e1ff237f4b66c4d45d36ebcf26b0a694948b964c65beint,
        0x2d6b25b948ad8c05c33dc8dd5272edf88dd4ca068b80f6dab707641c52302d5int,
    );
    lemma_power_odd(
        fr_modulus(),
        0x2200524a255dbf6af47485a398ccebd619e3d57040f03e65be26ba6bf27f8ff3int,
        25494940211,
        0x2d6b25b948ad8c05c33dc8dd5272edf88dd4ca068b80f6dab707641c52302d5int,
        0x1e5531274ae7f4b1d169621a3c697f75831397af1fd796d59d94f1e9d7d41c98int,
    );
    lemma_power_even(
        fr_modulus(),
        b,
        50989880423,
        0x1e5531274ae7f4b1d169621a3c697f75831397af1fd796d59d94f1e9d7d41c98int,
        0xad8a194e3b34b00dc5f3581f0c3f3e1c8c12bc86b0dfa9ab3985cd0b7efe340int,
    );
    lemma_power_even(
        fr_modulus(),
        b,
        101979760846,
        0xad8a194e3b34b00dc5f3581f0c3f3e1c8c12bc86b0dfa9ab3985cd0b7efe340int,
        0x12aa81f902c8df45ef1cf26c9843b67d9b5c10ec43e6c5894e414d88e54fdint,
    );
    lemma_power_even(
        fr_modulus(),
        b,
        203959521692,
        0x12aa81f902c8df45ef1cf26c9843b67d9b5c10ec43e6c5894e414d88e54fdint,
        0x1d4474536330649921f7164c1f26588f8eb779c1b911afe2367346a80dc91adeint,
    );
    lemma_power_odd(
        fr_modulus(),
        0x2200524a255dbf6af47485a398ccebd619e3d57040f03e65be26ba6bf27f8ff3int,
        407919043384,
        0x1d4474536330649921f7164c1f26588f8eb779c1b911afe2367346a80dc91adeint,
        0xfaa00e7d32ac9ba44168d126b2dfe254ec2258c975d3caf446320d2ac285036int,
    );
    lemma_power_odd(
        fr_modulus(),
        0x2200524a255dbf6af47485a398ccebd619e3d57040f03e65be26ba6bf27f8ff3int,
        815838086769,
        0xfaa00e7d32ac9ba44168d126b2dfe254ec2258c975d3caf446320d2ac285036int,
        0x24aaa683e7f59cc1c1bc7883b29bffc41a85f992d9bd0f285261158569155625int,
    );
    lemma_power_odd(
        fr_modulus(),
        0x2200524a255dbf6af47485a398ccebd619e3d57040f03e65be26ba6bf27f8ff3int,
        1631676173539,
        0x24aaa683e7f59cc1c1bc7883b29bffc41a85f992d9bd0f285261158569155625int,
        0x281e1597c64861d929315f61af4dccfa2cdaae6f308759177621fc067540211bint,
    );
    lemma_power_even(
        fr_modulus(),
        b,
        3263352347079,
        0x281e1597c64861d929315f61af4dccfa2cdaae6f308759177621fc067540211bint,
        0x14301cefa952f444889bfbdadbf32f48c3ac806bcc51084246c65974c6d35ec0int,
    );
    lemma_power_odd(
        fr_modulus(),
        0x2200524a255dbf6af47485a398ccebd619e3d57040f03e65be26ba6bf27f8ff3int,
        6526704694158,
        0x14301cefa952f444889bfbdadbf32f48c3ac806bcc51084246c65974c6d35ec0int,
        0x240d046154ddb7eebb6e62ddf70b14fb48c36c601517a2d0c4daa63e68153b5fint,
    );
    lemma_power_even(
        fr_modulus(),
        b,
        13053409388317,
        0x240d046154ddb7eebb6e62ddf70b14fb48c36c601517a2d0c4daa63e68153b5fint,
        0x2d056fad7f257663aae9ba2f03b7304c6600298187274876be2353f10ff70b2fint,
    );
    lemma_power_odd(
        fr_modulus(),
        0x2200524a255dbf6af47485a398ccebd619e3d57040f03e65be26ba6bf27f8ff3int,
        26106818776634,
        0x2d056fad7f257663aae9ba2f03b7304c6600298187274876be2353f10ff70b2fint,
        0x1af7a0aeca3e85657e7c8dd0977f779e952146b6f38ba95d147bdb084fbd38cfint,
    );
    lemma_power_odd(
        fr_modulus(),
        0x2200524a255dbf6af47485a398ccebd619e3d57040f03e65be26ba6bf27f8ff3int,
        52213637553269,
        0x1af7a0aeca3e85657e7c8dd0977f779e952146b6f38ba95d147bdb084fbd38cfint,
        0x12f85116896839ae56c6232304a95d8f7364f6fecd938c4b3e2c7a9f327b5c2int,
    );
    lemma_power_even(
        fr_modulus(),
        b,
        104427275106539,
        0x12f85116896839ae56c6232304a95d8f7364f6fecd938c4b3e2c7a9f327b5c2int,
        0x13cfe4037a294a4f68f53062a638023655c6a7d617c3c91bb4fd6a38b831dfdfint,
    );
    lemma_power_odd(
        fr_modulus(),
        0x2200524a255dbf6af47485a398ccebd619e3d57040f03e65be26ba6bf27f8ff3int,
        208854550213078,
        0x13cfe4037a294a4f68f53062a638023655c6a7d617c3c91bb4fd6a38b831dfdfint,
        0x27453dd309c17eb67daf2f4254fec7073de9d5e582f256ac7fa2390132c95ea6int,
    );
    lemma_power_even(
        fr_modulus(),
        b,
        417709100426157,
        0x27453dd309c17eb67daf2f4254fec7073de9d5e582f256ac7fa2390132c95ea6int,
        0x2adb6e7f18c177294f7025cd641ca815c30baa39b003b445fba5835b2a17482cint,
    );
    lemma_power_odd(
        fr_modulus(),
        0x2200524a255dbf6af47485a398ccebd619e3d57040f03e65be26ba6bf27f8ff3int,
        835418200852314,
        0x2adb6e7f18c177294f7025cd641ca815c30baa39b003b445fba5835b2a17482cint,
        0x1int,
    );
    lemma_prime_1670836401704629();
    assert(((0x2200524a255dbf6af47485a398ccebd619e3d57040f03e65be26ba6bf27f8ff3int - 1)
        * 0x30b43c635b2375e9f82f247135e791541018e190295925392ce8c12f2bea62int)
        % fr_modulus() == 1);
    lemma_prime_order(
        fr_modulus(),
        b,
        1670836401704629,
        0x30b43c635b2375e9f82f247135e791541018e190295925392ce8c12f2bea62int,
    );
}

/// The order of the scalar field is prime.
pub proof fn lemma_modulus_prime()
    ensures
        is_prime(fr_modulus()),
        is_field(fr_modulus()),
{
    lemma_order_of_root();
    lemma_order_13();
    assert(268435456int * (-4) - 13int * (-82595525int) == 1);
    lemma_orders_multiply(fr_modulus(), 268435456nat, 13nat, -4int, -82595525int);
    lemma_order_237073();
    assert(3489660928int * (-41936int) - 237073int * (-617288433int) == 1);
    lemma_orders_multiply(fr_modulus(), 3489660928nat, 237073nat, -41936int, -617288433int);
    lemma_order_405928799();
    assert(827304385183744int * 116478105int - 405928799int * 237388545187681int == 1);
    lemma_orders_multiply(
        fr_modulus(),
        827304385183744nat,
        405928799nat,
        116478105int,
        237388545187681int,
    );
    lemma_order_1670836401704629();
    assert(335826675485070596243456int * (-766134776209682int)
        - 1670836401704629int * (-153987843816129405218717int) == 1);
    lemma_orders_multiply(
        fr_modulus(),
        335826675485070596243456nat,
        1670836401704629nat,
        -766134776209682int,
        -153987843816129405218717int,
    );
    assert(561111434063903498778709952002286157824nat
        * 561111434063903498778709952002286157824nat > fr_modulus());
    lemma_prime_by_order(fr_modulus(), 561111434063903498778709952002286157824nat);
    lemma_prime_field(fr_modulus());
}

} // verus!
