//! Prime factors of the order of the multiplicative group of the BN254 scalar
//! field, each shown to be prime by the orders of elements modulo it.

use crate::field::fpow;
use crate::field::primality::{
    is_prime, lemma_orders_multiply, lemma_power_even, lemma_power_odd, lemma_prime_by_order,
    lemma_prime_by_trial, lemma_prime_order, no_divisor_to, order_occurs_below,
};
use vstd::prelude::*;

verus! {

proof fn lemma_prime_2()
    ensures
        is_prime(2),
{
}

proof fn lemma_prime_5()
    ensures
        is_prime(5),
{
    reveal_with_fuel(no_divisor_to, 4);
    assert(no_divisor_to(5, 3));
    lemma_prime_by_trial(5, 3);
}

proof fn lemma_prime_11()
    ensures
        is_prime(11),
{
    reveal_with_fuel(no_divisor_to, 5);
    assert(no_divisor_to(11, 4));
    lemma_prime_by_trial(11, 4);
}

/// 13 is prime.
pub proof fn lemma_prime_13()
    ensures
        is_prime(13),
{
    reveal_with_fuel(no_divisor_to, 5);
    assert(no_divisor_to(13, 4));
    lemma_prime_by_trial(13, 4);
}

proof fn lemma_prime_31()
    ensures
        is_prime(31),
{
    reveal_with_fuel(no_divisor_to, 7);
    assert(no_divisor_to(31, 6));
    lemma_prime_by_trial(31, 6);
}

proof fn lemma_prime_41()
    ensures
        is_prime(41),
{
    reveal_with_fuel(no_divisor_to, 8);
    assert(no_divisor_to(41, 7));
    lemma_prime_by_trial(41, 7);
}

proof fn lemma_prime_449()
    ensures
        is_prime(449),
{
    reveal_with_fuel(no_divisor_to, 5);
    assert(no_divisor_to(449, 4));
    assert(no_divisor_to(449, 7));
    assert(no_divisor_to(449, 10));
    assert(no_divisor_to(449, 12));
    assert(no_divisor_to(449, 13));
    assert(no_divisor_to(449, 14));
    assert(no_divisor_to(449, 16));
    assert(no_divisor_to(449, 18));
    assert(no_divisor_to(449, 20));
    assert(no_divisor_to(449, 22));
    lemma_prime_by_trial(449, 22);
}

/// Some element has the order 449.
proof fn lemma_order_449_below_237073()
    ensures
        order_occurs_below(237073, 449),
{
    let b = 40087int;
    assert(fpow(237073, b, 1) == b) by {
        reveal_with_fuel(fpow, 2);
    }
    lemma_power_odd(237073, 40087int, 1, 40087int, 214369int);
    lemma_power_odd(237073, 40087int, 3, 214369int, 73827int);
    lemma_power_even(237073, b, 7, 73827int, 117659int);
    lemma_power_even(237073, b, 14, 117659int, 236592int);
    lemma_power_even(237073, b, 28, 236592int, 231361int);
    lemma_power_even(237073, b, 56, 231361int, 147943int);
    lemma_power_even(237073, b, 112, 147943int, 77743int);
    lemma_power_odd(237073, 40087int, 224, 77743int, 1int);
    lemma_prime_449();
    assert(((40087int - 1) * 95022int) % 237073 == 1);
    lemma_prime_order(237073, b, 449, 95022int);
}

/// Some element has the order 2.
proof fn lemma_order_2_below_237073()
    ensures
        order_occurs_below(237073, 2),
{
    let b = 237072int;
    assert(fpow(237073, b, 1) == b) by {
        reveal_with_fuel(fpow, 2);
    }
    lemma_power_even(237073, b, 1, 237072int, 1int);
    lemma_prime_2();
    assert(((237072int - 1) * 118536int) % 237073 == 1);
    lemma_prime_order(237073, b, 2, 118536int);
}

/// 237073 is prime.
pub proof fn lemma_prime_237073()
    ensures
        is_prime(237073),
{
    lemma_order_449_below_237073();
    lemma_order_2_below_237073();
    assert(449 * (1) - 2 * (224) == 1);
    lemma_orders_multiply(237073, 449, 2, 1, 224);
    assert(898 * 898 > 237073);
    lemma_prime_by_order(237073, 898);
}

/// Some element has the order 41.
proof fn lemma_order_41_below_3691()
    ensures
        order_occurs_below(3691, 41),
{
    let b = 1752int;
    assert(fpow(3691, b, 1) == b) by {
        reveal_with_fuel(fpow, 2);
    }
    lemma_power_even(3691, b, 1, 1752int, 2283int);
    lemma_power_odd(3691, 1752int, 2, 2283int, 1636int);
    lemma_power_even(3691, b, 5, 1636int, 521int);
    lemma_power_even(3691, b, 10, 521int, 1998int);
    lemma_power_odd(3691, 1752int, 20, 1998int, 1int);
    lemma_prime_41();
    assert(((1752int - 1) * 3027int) % 3691 == 1);
    lemma_prime_order(3691, b, 41, 3027int);
}

/// Some element has the order 2.
proof fn lemma_order_2_below_3691()
    ensures
        order_occurs_below(3691, 2),
{
    let b = 3690int;
    assert(fpow(3691, b, 1) == b) by {
        reveal_with_fuel(fpow, 2);
    }
    lemma_power_even(3691, b, 1, 3690int, 1int);
    lemma_prime_2();
    assert(((3690int - 1) * 1845int) % 3691 == 1);
    lemma_prime_order(3691, b, 2, 1845int);
}

proof fn lemma_prime_3691()
    ensures
        is_prime(3691),
{
    lemma_order_41_below_3691();
    lemma_order_2_below_3691();
    assert(41 * (1) - 2 * (20) == 1);
    lemma_orders_multiply(3691, 41, 2, 1, 20);
    assert(82 * 82 > 3691);
    lemma_prime_by_order(3691, 82);
}

/// Some element has the order 3691.
proof fn lemma_order_3691_below_405928799()
    ensures
        order_occurs_below(405928799, 3691),
{
    let b = 122990330int;
    assert(fpow(405928799, b, 1) == b) by {
        reveal_with_fuel(fpow, 2);
    }
    lemma_power_odd(405928799, 122990330int, 1, 122990330int, 229334777int);
    lemma_power_odd(405928799, 122990330int, 3, 229334777int, 25655059int);
    lemma_power_even(405928799, b, 7, 25655059int, 167161303int);
    lemma_power_even(405928799, b, 14, 167161303int, 374405960int);
    lemma_power_odd(405928799, 122990330int, 28, 374405960int, 137190359int);
    lemma_power_odd(405928799, 122990330int, 57, 137190359int, 378816283int);
    lemma_power_even(405928799, b, 115, 378816283int, 180317136int);
    lemma_power_odd(405928799, 122990330int, 230, 180317136int, 384062897int);
    lemma_power_even(405928799, b, 461, 384062897int, 117374640int);
    lemma_power_odd(405928799, 122990330int, 922, 117374640int, 360404898int);
    lemma_power_odd(405928799, 122990330int, 1845, 360404898int, 1int);
    lemma_prime_3691();
    assert(((122990330int - 1) * 170220075int) % 405928799 == 1);
    lemma_prime_order(405928799, b, 3691, 170220075int);
}

/// Some element has the order 11.
proof fn lemma_order_11_below_405928799()
    ensures
        order_occurs_below(405928799, 11),
{
    let b = 215859951int;
    assert(fpow(405928799, b, 1) == b) by {
        reveal_with_fuel(fpow, 2);
    }
    lemma_power_even(405928799, b, 1, 215859951int, 122600218int);
    lemma_power_odd(405928799, 215859951int, 2, 122600218int, 339059442int);
    lemma_power_odd(405928799, 215859951int, 5, 339059442int, 1int);
    lemma_prime_11();
    assert(((215859951int - 1) * 206638701int) % 405928799 == 1);
    lemma_prime_order(405928799, b, 11, 206638701int);
}

/// 405928799 is prime.
pub proof fn lemma_prime_405928799()
    ensures
        is_prime(405928799),
{
    lemma_order_3691_below_405928799();
    lemma_order_11_below_405928799();
    assert(3691 * (2) - 11 * (671) == 1);
    lemma_orders_multiply(405928799, 3691, 11, 2, 671);
    assert(40601 * 40601 > 405928799);
    lemma_prime_by_order(405928799, 40601);
}

/// Some element has the order 31.
proof fn lemma_order_31_below_93001()
    ensures
        order_occurs_below(93001, 31),
{
    let b = 52049int;
    assert(fpow(93001, b, 1) == b) by {
        reveal_with_fuel(fpow, 2);
    }
    lemma_power_odd(93001, 52049int, 1, 52049int, 73881int);
    lemma_power_odd(93001, 52049int, 3, 73881int, 82995int);
    lemma_power_odd(93001, 52049int, 7, 82995int, 28520int);
    lemma_power_odd(93001, 52049int, 15, 28520int, 1int);
    lemma_prime_31();
    assert(((52049int - 1) * 79405int) % 93001 == 1);
    lemma_prime_order(93001, b, 31, 79405int);
}

/// Some element has the order 5.
proof fn lemma_order_5_below_93001()
    ensures
        order_occurs_below(93001, 5),
{
    let b = 28198int;
    assert(fpow(93001, b, 1) == b) by {
        reveal_with_fuel(fpow, 2);
    }
    lemma_power_even(93001, b, 1, 28198int, 61655int);
    lemma_power_odd(93001, 28198int, 2, 61655int, 1int);
    lemma_prime_5();
    assert(((28198int - 1) * 35420int) % 93001 == 1);
    lemma_prime_order(93001, b, 5, 35420int);
}

/// Some element has the order 2.
proof fn lemma_order_2_below_93001()
    ensures
        order_occurs_below(93001, 2),
{
    let b = 93000int;
    assert(fpow(93001, b, 1) == b) by {
        reveal_with_fuel(fpow, 2);
    }
    lemma_power_even(93001, b, 1, 93000int, 1int);
    lemma_prime_2();
    assert(((93000int - 1) * 46500int) % 93001 == 1);
    lemma_prime_order(93001, b, 2, 46500int);
}

proof fn lemma_prime_93001()
    ensures
        is_prime(93001),
{
    lemma_order_31_below_93001();
    lemma_order_5_below_93001();
    assert(31 * (1) - 5 * (6) == 1);
    lemma_orders_multiply(93001, 31, 5, 1, 6);
    lemma_order_2_below_93001();
    assert(155 * (1) - 2 * (77) == 1);
    lemma_orders_multiply(93001, 155, 2, 1, 77);
    assert(310 * 310 > 93001);
    lemma_prime_by_order(93001, 310);
}

/// Some element has the order 93001.
proof fn lemma_order_93001_below_12048837557()
    ensures
        order_occurs_below(12048837557, 93001),
{
    let b = 4746995210int;
    assert(fpow(12048837557, b, 1) == b) by {
        reveal_with_fuel(fpow, 2);
    }
    lemma_power_even(12048837557, b, 1, 4746995210int, 6461955269int);
    lemma_power_odd(12048837557, 4746995210int, 2, 6461955269int, 2981714033int);
    lemma_power_odd(12048837557, 4746995210int, 5, 2981714033int, 9681621874int);
    lemma_power_even(12048837557, b, 11, 9681621874int, 6023560310int);
    lemma_power_odd(12048837557, 4746995210int, 22, 6023560310int, 9174352505int);
    lemma_power_even(12048837557, b, 45, 9174352505int, 10390882295int);
    lemma_power_odd(12048837557, 4746995210int, 90, 10390882295int, 11653420293int);
    lemma_power_odd(12048837557, 4746995210int, 181, 11653420293int, 6776742415int);
    lemma_power_even(12048837557, b, 363, 6776742415int, 8165790361int);
    lemma_power_odd(12048837557, 4746995210int, 726, 8165790361int, 5748487736int);
    lemma_power_even(12048837557, b, 1453, 5748487736int, 7308113147int);
    lemma_power_even(12048837557, b, 2906, 7308113147int, 7776442859int);
    lemma_power_odd(12048837557, 4746995210int, 5812, 7776442859int, 538682138int);
    lemma_power_even(12048837557, b, 11625, 538682138int, 1421815290int);
    lemma_power_even(12048837557, b, 23250, 1421815290int, 6322326642int);
    lemma_power_odd(12048837557, 4746995210int, 46500, 6322326642int, 1int);
    lemma_prime_93001();
    assert(((4746995210int - 1) * 10304344409int) % 12048837557 == 1);
    lemma_prime_order(12048837557, b, 93001, 10304344409int);
}

/// Some element has the order 2.
proof fn lemma_order_2_below_12048837557()
    ensures
        order_occurs_below(12048837557, 2),
{
    let b = 12048837556int;
    assert(fpow(12048837557, b, 1) == b) by {
        reveal_with_fuel(fpow, 2);
    }
    lemma_power_even(12048837557, b, 1, 12048837556int, 1int);
    lemma_prime_2();
    assert(((12048837556int - 1) * 6024418778int) % 12048837557 == 1);
    lemma_prime_order(12048837557, b, 2, 6024418778int);
}

proof fn lemma_prime_12048837557()
    ensures
        is_prime(12048837557),
{
    lemma_order_93001_below_12048837557();
    lemma_order_2_below_12048837557();
    assert(93001 * (1) - 2 * (46500) == 1);
    lemma_orders_multiply(12048837557, 93001, 2, 1, 46500);
    assert(186002 * 186002 > 12048837557);
    lemma_prime_by_order(12048837557, 186002);
}

/// Some element has the order 12048837557.
proof fn lemma_order_12048837557_below_5156902474397()
    ensures
        order_occurs_below(5156902474397, 12048837557),
{
    let b = 4746712836098int;
    assert(fpow(5156902474397, b, 1) == b) by {
        reveal_with_fuel(fpow, 2);
    }
    lemma_power_even(5156902474397, b, 1, 4746712836098int, 4873537632190int);
    lemma_power_odd(5156902474397, 4746712836098int, 2, 4873537632190int, 3644367028578int);
    lemma_power_odd(5156902474397, 4746712836098int, 5, 3644367028578int, 1512708647324int);
    lemma_power_even(5156902474397, b, 11, 1512708647324int, 2458361394247int);
    lemma_power_even(5156902474397, b, 22, 2458361394247int, 1372198352576int);
    lemma_power_odd(5156902474397, 4746712836098int, 44, 1372198352576int, 3985494425225int);
    lemma_power_odd(5156902474397, 4746712836098int, 89, 3985494425225int, 3534033127334int);
    lemma_power_odd(5156902474397, 4746712836098int, 179, 3534033127334int, 2097983046559int);
    lemma_power_even(5156902474397, b, 359, 2097983046559int, 3949638834514int);
    lemma_power_even(5156902474397, b, 718, 3949638834514int, 2886924168213int);
    lemma_power_even(5156902474397, b, 1436, 2886924168213int, 4889216364411int);
    lemma_power_odd(5156902474397, 4746712836098int, 2872, 4889216364411int, 1186104587753int);
    lemma_power_even(5156902474397, b, 5745, 1186104587753int, 4863306363187int);
    lemma_power_odd(5156902474397, 4746712836098int, 11490, 4863306363187int, 3528003011007int);
    lemma_power_even(5156902474397, b, 22981, 3528003011007int, 569229458997int);
    lemma_power_odd(5156902474397, 4746712836098int, 45962, 569229458997int, 4322973491138int);
    lemma_power_even(5156902474397, b, 91925, 4322973491138int, 1056634934969int);
    lemma_power_odd(5156902474397, 4746712836098int, 183850, 1056634934969int, 2967256843868int);
    lemma_power_even(5156902474397, b, 367701, 2967256843868int, 4214317258230int);
    lemma_power_odd(5156902474397, 4746712836098int, 735402, 4214317258230int, 2005289838737int);
    lemma_power_even(5156902474397, b, 1470805, 2005289838737int, 2188467409472int);
    lemma_power_odd(5156902474397, 4746712836098int, 2941610, 2188467409472int, 2598843926205int);
    lemma_power_even(5156902474397, b, 5883221, 2598843926205int, 4903139152562int);
    lemma_power_odd(5156902474397, 4746712836098int, 11766442, 4903139152562int, 2379638444348int);
    lemma_power_odd(5156902474397, 4746712836098int, 23532885, 2379638444348int, 4488210961748int);
    lemma_power_odd(5156902474397, 4746712836098int, 47065771, 4488210961748int, 2385369468561int);
    lemma_power_even(5156902474397, b, 94131543, 2385369468561int, 2260607923718int);
    lemma_power_odd(5156902474397, 4746712836098int, 188263086, 2260607923718int, 4942587966814int);
    lemma_power_odd(5156902474397, 4746712836098int, 376526173, 4942587966814int, 1513905999439int);
    lemma_power_even(5156902474397, b, 753052347, 1513905999439int, 3368897426571int);
    lemma_power_odd(
        5156902474397,
        4746712836098int,
        1506104694,
        3368897426571int,
        4570632802352int,
    );
    lemma_power_even(5156902474397, b, 3012209389, 4570632802352int, 3938668016706int);
    lemma_power_odd(5156902474397, 4746712836098int, 6024418778, 3938668016706int, 1int);
    lemma_prime_12048837557();
    assert(((4746712836098int - 1) * 5089286551700int) % 5156902474397 == 1);
    lemma_prime_order(5156902474397, b, 12048837557, 5089286551700int);
}

proof fn lemma_prime_5156902474397()
    ensures
        is_prime(5156902474397),
{
    lemma_order_12048837557_below_5156902474397();
    assert(12048837557 * 12048837557 > 5156902474397);
    lemma_prime_by_order(5156902474397, 12048837557);
}

/// Some element has the order 5156902474397.
proof fn lemma_order_5156902474397_below_1670836401704629()
    ensures
        order_occurs_below(1670836401704629, 5156902474397),
{
    let b = 11046204280772int;
    assert(fpow(1670836401704629, b, 1) == b) by {
        reveal_with_fuel(fpow, 2);
    }
    lemma_power_even(1670836401704629, b, 1, 11046204280772int, 1662414987046364int);
    lemma_power_even(1670836401704629, b, 2, 1662414987046364int, 243335622413464int);
    lemma_power_odd(1670836401704629, 11046204280772int, 4, 243335622413464int, 938638730596843int);
    lemma_power_even(1670836401704629, b, 9, 938638730596843int, 824118890218688int);
    lemma_power_odd(
        1670836401704629,
        11046204280772int,
        18,
        824118890218688int,
        267262586498538int,
    );
    lemma_power_odd(1670836401704629, 11046204280772int, 37, 267262586498538int, 49492090486633int);
    lemma_power_even(1670836401704629, b, 75, 49492090486633int, 307337505430343int);
    lemma_power_even(1670836401704629, b, 150, 307337505430343int, 142460584602657int);
    lemma_power_even(1670836401704629, b, 300, 142460584602657int, 1084549957119634int);
    lemma_power_even(1670836401704629, b, 600, 1084549957119634int, 1080461158659793int);
    lemma_power_odd(
        1670836401704629,
        11046204280772int,
        1200,
        1080461158659793int,
        772960424580221int,
    );
    lemma_power_even(1670836401704629, b, 2401, 772960424580221int, 811442543936487int);
    lemma_power_odd(
        1670836401704629,
        11046204280772int,
        4802,
        811442543936487int,
        1514683984251661int,
    );
    lemma_power_even(1670836401704629, b, 9605, 1514683984251661int, 1113683759450937int);
    lemma_power_odd(
        1670836401704629,
        11046204280772int,
        19210,
        1113683759450937int,
        1494067479693012int,
    );
    lemma_power_odd(
        1670836401704629,
        11046204280772int,
        38421,
        1494067479693012int,
        1470387515290701int,
    );
    lemma_power_odd(
        1670836401704629,
        11046204280772int,
        76843,
        1470387515290701int,
        674188219219632int,
    );
    lemma_power_odd(
        1670836401704629,
        11046204280772int,
        153687,
        674188219219632int,
        1364249210607750int,
    );
    lemma_power_even(1670836401704629, b, 307375, 1364249210607750int, 1330217670466045int);
    lemma_power_odd(
        1670836401704629,
        11046204280772int,
        614750,
        1330217670466045int,
        185921603602951int,
    );
    lemma_power_even(1670836401704629, b, 1229501, 185921603602951int, 1245520574938995int);
    lemma_power_odd(
        1670836401704629,
        11046204280772int,
        2459002,
        1245520574938995int,
        31384141629922int,
    );
    lemma_power_even(1670836401704629, b, 4918005, 31384141629922int, 532800708973965int);
    lemma_power_odd(
        1670836401704629,
        11046204280772int,
        9836010,
        532800708973965int,
        338760206885147int,
    );
    lemma_power_odd(
        1670836401704629,
        11046204280772int,
        19672021,
        338760206885147int,
        1321478185456450int,
    );
    lemma_power_odd(
        1670836401704629,
        11046204280772int,
        39344043,
        1321478185456450int,
        566863234295377int,
    );
    lemma_power_even(1670836401704629, b, 78688087, 566863234295377int, 860630985012453int);
    lemma_power_even(1670836401704629, b, 157376174, 860630985012453int, 1651831741258945int);
    lemma_power_even(1670836401704629, b, 314752348, 1651831741258945int, 1613023119241294int);
    lemma_power_odd(
        1670836401704629,
        11046204280772int,
        629504696,
        1613023119241294int,
        498053521471380int,
    );
    lemma_power_even(1670836401704629, b, 1259009393, 498053521471380int, 826988066168908int);
    lemma_power_even(1670836401704629, b, 2518018786, 826988066168908int, 865056267209583int);
    lemma_power_odd(
        1670836401704629,
        11046204280772int,
        5036037572,
        865056267209583int,
        287668427336427int,
    );
    lemma_power_even(1670836401704629, b, 10072075145, 287668427336427int, 337174974857465int);
    lemma_power_odd(
        1670836401704629,
        11046204280772int,
        20144150290,
        337174974857465int,
        1463454570500538int,
    );
    lemma_power_even(1670836401704629, b, 40288300581, 1463454570500538int, 1504549373680653int);
    lemma_power_even(1670836401704629, b, 80576601162, 1504549373680653int, 1666035062387111int);
    lemma_power_odd(
        1670836401704629,
        11046204280772int,
        161153202324,
        1666035062387111int,
        585835722703625int,
    );
    lemma_power_odd(
        1670836401704629,
        11046204280772int,
        322306404649,
        585835722703625int,
        951131594771470int,
    );
    lemma_power_odd(
        1670836401704629,
        11046204280772int,
        644612809299,
        951131594771470int,
        1670143628958792int,
    );
    lemma_power_even(1670836401704629, b, 1289225618599, 1670143628958792int, 122502676378192int);
    lemma_power_odd(1670836401704629, 11046204280772int, 2578451237198, 122502676378192int, 1int);
    lemma_prime_5156902474397();
    assert(((11046204280772int - 1) * 735766788910399int) % 1670836401704629 == 1);
    lemma_prime_order(1670836401704629, b, 5156902474397, 735766788910399int);
}

/// 1670836401704629 is prime.
pub proof fn lemma_prime_1670836401704629()
    ensures
        is_prime(1670836401704629),
{
    lemma_order_5156902474397_below_1670836401704629();
    assert(5156902474397 * 5156902474397 > 1670836401704629);
    lemma_prime_by_order(1670836401704629, 5156902474397);
}

} // verus!
